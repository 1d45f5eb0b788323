//! The stored form of a task: a variant tag followed by the variant's fields,
//! integers little-endian, texts and lists prefixed with their length.
//!
//! An `Event` is the tag `0 0 0 0`, author, channel, the event text, the
//! member list and the time label; a `Poll` is the tag `1 0 0 0`, author,
//! channel, message, one byte for the flag and the topic text. A 64-bit
//! integer takes eight bytes, a text its length in bytes (eight bytes) and its
//! UTF-8 bytes, a member list its length (eight bytes) and eight bytes per id.

use vstd::bytes::{
    lemma_auto_spec_u64_to_from_le_bytes, spec_u64_to_le_bytes, u64_from_le_bytes,
    u64_to_le_bytes,
};
use vstd::prelude::*;
use vstd::slice::{slice_subrange, slice_to_vec};
use vstd::utf8::{
    encode_utf8, encode_utf8_decode_utf8, encode_utf8_valid_utf8, valid_utf8,
};

use crate::task::{Event, EventView, Poll, PollView, Task, TaskView};

verus! {

/// The eight little-endian bytes of a 64-bit integer.
pub open spec fn word_bytes(x: u64) -> Seq<u8> {
    spec_u64_to_le_bytes(x)
}

/// A text: its UTF-8 length as a word, then its UTF-8 bytes.
pub open spec fn text_bytes(s: Seq<char>) -> Seq<u8> {
    word_bytes(encode_utf8(s).len() as u64) + encode_utf8(s)
}

/// The words of a list of ids, one after the other.
pub open spec fn words_bytes(m: Seq<u64>) -> Seq<u8>
    decreases m.len(),
{
    if m.len() == 0 {
        Seq::empty()
    } else {
        words_bytes(m.drop_last()) + word_bytes(m.last())
    }
}

/// A list of ids: its length as a word, then its words.
pub open spec fn list_bytes(m: Seq<u64>) -> Seq<u8> {
    word_bytes(m.len() as u64) + words_bytes(m)
}

/// The variant tag, a 32-bit little-endian integer.
pub open spec fn tag_bytes(tag: u8) -> Seq<u8> {
    seq![tag, 0u8, 0u8, 0u8]
}

pub open spec fn flag_bytes(b: bool) -> Seq<u8> {
    seq![if b { 1u8 } else { 0u8 }]
}

/// The stored form of a task.
pub open spec fn task_bytes(t: TaskView) -> Seq<u8> {
    match t {
        TaskView::Event(e) => tag_bytes(0) + word_bytes(e.author) + word_bytes(e.channel)
            + text_bytes(e.event) + list_bytes(e.members) + text_bytes(e.time),
        TaskView::Poll(p) => tag_bytes(1) + word_bytes(p.author) + word_bytes(p.channel)
            + word_bytes(p.message) + flag_bytes(p.others) + text_bytes(p.topic),
    }
}

pub open spec fn fits_word(n: nat) -> bool {
    n <= u64::MAX
}

/// Every length that the stored form writes as a word fits in one.
pub open spec fn encodable(t: TaskView) -> bool {
    match t {
        TaskView::Event(e) => fits_word(encode_utf8(e.event).len()) && fits_word(e.members.len())
            && fits_word(encode_utf8(e.time).len()),
        TaskView::Poll(p) => fits_word(encode_utf8(p.topic).len()),
    }
}

/// `piece` stands in `b` from position `pos` on.
pub open spec fn at(b: Seq<u8>, pos: int, piece: Seq<u8>) -> bool {
    0 <= pos && pos + piece.len() <= b.len() && b.subrange(pos, pos + piece.len()) == piece
}

/// The error of a payload that is not the stored form of any task.
#[derive(PartialEq, Eq, Structural, Clone, Copy, Debug)]
pub enum CodecError {
    Malformed,
}

proof fn lemma_word(x: u64, y: u64)
    ensures
        word_bytes(x).len() == 8,
        word_bytes(x) == word_bytes(y) ==> x == y,
{
    lemma_auto_spec_u64_to_from_le_bytes();
}

proof fn lemma_words_len(m: Seq<u64>)
    ensures
        words_bytes(m).len() == 8 * m.len(),
    decreases m.len(),
{
    if m.len() > 0 {
        lemma_words_len(m.drop_last());
        lemma_word(m.last(), m.last());
    }
}

proof fn lemma_at_split(b: Seq<u8>, pos: int, x: Seq<u8>, y: Seq<u8>)
    requires
        at(b, pos, x + y),
    ensures
        at(b, pos, x),
        at(b, pos + x.len(), y),
{
    let whole = b.subrange(pos, pos + x.len() + y.len());
    assert(whole == x + y);
    assert(b.subrange(pos, pos + x.len()) =~= whole.subrange(0, x.len() as int));
    assert(whole.subrange(0, x.len() as int) =~= x);
    assert(b.subrange(pos + x.len(), pos + x.len() + y.len()) =~= whole.subrange(
        x.len() as int,
        (x.len() + y.len()) as int,
    ));
    assert(whole.subrange(x.len() as int, (x.len() + y.len()) as int) =~= y);
}

proof fn lemma_at_join(b: Seq<u8>, pos: int, x: Seq<u8>, y: Seq<u8>)
    requires
        at(b, pos, x),
        at(b, pos + x.len(), y),
    ensures
        at(b, pos, x + y),
{
    assert(b.subrange(pos, pos + x.len() + y.len()) =~= b.subrange(pos, pos + x.len())
        + b.subrange(pos + x.len(), pos + x.len() + y.len()));
}

fn append_word(out: &mut Vec<u8>, x: u64)
    ensures
        final(out)@ == old(out)@ + word_bytes(x),
{
    let mut w = u64_to_le_bytes(x);
    out.append(&mut w);
}

fn append_text(out: &mut Vec<u8>, s: &String)
    ensures
        final(out)@ == old(out)@ + text_bytes(s@),
        fits_word(encode_utf8(s@).len()),
{
    let b = s.as_str().as_bytes();
    let n = b.len();
    append_word(out, n as u64);
    let mut v = slice_to_vec(b);
    out.append(&mut v);
    assert(final(out)@ =~= old(out)@ + text_bytes(s@));
}

fn append_list(out: &mut Vec<u8>, m: &Vec<u64>)
    ensures
        final(out)@ == old(out)@ + list_bytes(m@),
        fits_word(m@.len()),
{
    append_word(out, m.len() as u64);
    let ghost start = out@;
    let mut i: usize = 0;
    while i < m.len()
        invariant
            i <= m@.len(),
            out@ == start + words_bytes(m@.subrange(0, i as int)),
        decreases m@.len() - i,
    {
        append_word(out, m[i]);
        proof {
            let next = m@.subrange(0, i + 1);
            assert(next.drop_last() =~= m@.subrange(0, i as int));
        }
        i = i + 1;
    }
    assert(m@.subrange(0, m@.len() as int) =~= m@);
    assert(out@ =~= old(out)@ + list_bytes(m@));
}

/// The stored form of `t`.
pub fn encode(t: &Task) -> (r: Vec<u8>)
    ensures
        r@ == task_bytes(t@),
        encodable(t@),
{
    let mut out: Vec<u8> = Vec::new();
    match t {
        Task::Event(e) => {
            out.push(0u8);
            out.push(0u8);
            out.push(0u8);
            out.push(0u8);
            append_word(&mut out, e.author);
            append_word(&mut out, e.channel);
            append_text(&mut out, &e.event);
            append_list(&mut out, &e.members);
            append_text(&mut out, &e.time);
        },
        Task::Poll(p) => {
            out.push(1u8);
            out.push(0u8);
            out.push(0u8);
            out.push(0u8);
            append_word(&mut out, p.author);
            append_word(&mut out, p.channel);
            append_word(&mut out, p.message);
            out.push(if p.others { 1u8 } else { 0u8 });
            append_text(&mut out, &p.topic);
        },
    }
    assert(out@ =~= task_bytes(t@));
    out
}

/// Relies on `String::from_utf8`: it accepts exactly the valid UTF-8 byte
/// strings, and the string it returns holds those bytes.
#[verifier::external_body]
fn text_from_utf8(b: &[u8]) -> (r: Option<String>)
    ensures
        r is Some <==> valid_utf8(b@),
        r matches Some(s) ==> encode_utf8(s@) == b@,
{
    String::from_utf8(b.to_vec()).ok()
}

fn read_word(b: &[u8], pos: usize) -> (r: Option<(u64, usize)>)
    requires
        pos <= b@.len(),
    ensures
        r is Some <==> pos + 8 <= b@.len(),
        r matches Some((x, p)) ==> p == pos + 8 && at(b@, pos as int, word_bytes(x)),
        forall|y: u64| #[trigger] at(b@, pos as int, word_bytes(y)) ==> r == Some((y, (pos + 8) as usize)),
{
    proof {
        lemma_auto_spec_u64_to_from_le_bytes();
    }
    if b.len() - pos < 8 {
        return None;
    }
    let x = u64_from_le_bytes(slice_subrange(b, pos, pos + 8));
    proof {
        let s = b@.subrange(pos as int, pos + 8);
        assert(word_bytes(x) == s);
        assert forall|y: u64| #[trigger] at(b@, pos as int, word_bytes(y)) implies y == x by {
            lemma_word(x, y);
        }
    }
    Some((x, pos + 8))
}

fn read_text(b: &[u8], pos: usize) -> (r: Option<(String, usize)>)
    requires
        pos <= b@.len(),
    ensures
        r matches Some((s, p)) ==> p == pos + text_bytes(s@).len() && at(
            b@,
            pos as int,
            text_bytes(s@),
        ),
        forall|c: Seq<char>|
            #[trigger] at(b@, pos as int, text_bytes(c)) && fits_word(encode_utf8(c).len()) ==> (
            r matches Some((s, p)) && s@ == c),
{
    proof {
        lemma_auto_spec_u64_to_from_le_bytes();
    }
    let (n, p) = match read_word(b, pos) {
        Some(w) => w,
        None => {
            proof {
                assert forall|c: Seq<char>| #[trigger]
                    at(b@, pos as int, text_bytes(c)) implies false by {
                    lemma_at_split(b@, pos as int, word_bytes(encode_utf8(c).len() as u64), encode_utf8(c));
                }
            }
            return None;
        },
    };
    if n > (b.len() - p) as u64 {
        proof {
            assert forall|c: Seq<char>| #[trigger]
                at(b@, pos as int, text_bytes(c)) && fits_word(encode_utf8(c).len()) implies false by {
                lemma_at_split(b@, pos as int, word_bytes(encode_utf8(c).len() as u64), encode_utf8(c));
            }
        }
        return None;
    }
    let end = p + n as usize;
    let piece = slice_subrange(b, p, end);
    match text_from_utf8(piece) {
        Some(s) => {
            proof {
                lemma_at_join(b@, pos as int, word_bytes(n), piece@);
                assert forall|c: Seq<char>| #[trigger]
                    at(b@, pos as int, text_bytes(c)) && fits_word(encode_utf8(c).len()) implies s@
                    == c by {
                    lemma_at_split(b@, pos as int, word_bytes(encode_utf8(c).len() as u64), encode_utf8(c));
                    assert(encode_utf8(c).len() as u64 == n);
                    assert(encode_utf8(c) == piece@);
                    encode_utf8_decode_utf8(c);
                    encode_utf8_decode_utf8(s@);
                }
            }
            Some((s, end))
        },
        None => {
            proof {
                assert forall|c: Seq<char>| #[trigger]
                    at(b@, pos as int, text_bytes(c)) && fits_word(encode_utf8(c).len()) implies false by {
                    lemma_at_split(b@, pos as int, word_bytes(encode_utf8(c).len() as u64), encode_utf8(c));
                    assert(encode_utf8(c) == piece@);
                    encode_utf8_valid_utf8(c);
                }
            }
            None
        },
    }
}

proof fn lemma_at_prefix(b: Seq<u8>, pos: int, x: Seq<u8>, k: int)
    requires
        at(b, pos, x),
        0 <= k <= x.len(),
    ensures
        at(b, pos, x.subrange(0, k)),
{
    assert(b.subrange(pos, pos + k) =~= b.subrange(pos, pos + x.len()).subrange(0, k));
}

proof fn lemma_words_prefix(m: Seq<u64>, j: int)
    requires
        0 <= j <= m.len(),
    ensures
        words_bytes(m).subrange(0, 8 * j) == words_bytes(m.subrange(0, j)),
    decreases m.len(),
{
    lemma_words_len(m);
    if j == m.len() {
        assert(m.subrange(0, j) =~= m);
        assert(words_bytes(m).subrange(0, 8 * j) =~= words_bytes(m));
    } else {
        let d = m.drop_last();
        lemma_words_prefix(d, j);
        lemma_words_len(d);
        assert(d.subrange(0, j) =~= m.subrange(0, j));
        assert(words_bytes(m).subrange(0, 8 * j) =~= words_bytes(d).subrange(0, 8 * j));
    }
}

proof fn lemma_words_step(m: Seq<u64>, i: int)
    requires
        0 <= i < m.len(),
    ensures
        words_bytes(m.subrange(0, i + 1)) == words_bytes(m.subrange(0, i)) + word_bytes(m[i]),
{
    assert(m.subrange(0, i + 1).drop_last() =~= m.subrange(0, i));
}

fn read_list(b: &[u8], pos: usize) -> (r: Option<(Vec<u64>, usize)>)
    requires
        pos <= b@.len(),
    ensures
        r matches Some((v, p)) ==> p == pos + list_bytes(v@).len() && at(
            b@,
            pos as int,
            list_bytes(v@),
        ),
        forall|m: Seq<u64>| #[trigger]
            at(b@, pos as int, list_bytes(m)) && fits_word(m.len()) ==> (r matches Some((v, p))
                && v@ == m),
{
    proof {
        lemma_auto_spec_u64_to_from_le_bytes();
        assert forall|m: Seq<u64>| #[trigger] at(b@, pos as int, list_bytes(m)) implies at(
            b@,
            pos as int,
            word_bytes(m.len() as u64),
        ) && at(b@, pos + 8, words_bytes(m)) by {
            lemma_at_split(b@, pos as int, word_bytes(m.len() as u64), words_bytes(m));
        }
    }
    let (n, start) = match read_word(b, pos) {
        Some(w) => w,
        None => {
            return None;
        },
    };
    let mut v: Vec<u64> = Vec::new();
    proof {
        assert(words_bytes(v@) =~= Seq::<u8>::empty());
        assert(b@.subrange(start as int, start as int) =~= Seq::<u8>::empty());
        assert forall|m: Seq<u64>| #[trigger]
            at(b@, pos as int, list_bytes(m)) && fits_word(m.len()) implies m.len() == n && v@
                == m.subrange(0, 0) by {
            lemma_word(n, m.len() as u64);
            assert(v@ =~= m.subrange(0, 0));
        }
    }
    let mut p: usize = start;
    let mut i: u64 = 0;
    while i < n
        invariant
            start == pos + 8,
            at(b@, pos as int, word_bytes(n)),
            i <= n,
            v@.len() == i,
            p == start + 8 * i,
            p <= b@.len(),
            at(b@, start as int, words_bytes(v@)),
            forall|m: Seq<u64>| #[trigger]
                at(b@, pos as int, list_bytes(m)) && fits_word(m.len()) ==> m.len() == n && v@
                    == m.subrange(0, i as int) && at(b@, start as int, words_bytes(m)),
        decreases n - i,
    {
        proof {
            lemma_words_len(v@);
        }
        let (x, q) = match read_word(b, p) {
            Some(w) => w,
            None => {
                proof {
                    assert forall|m: Seq<u64>| #[trigger]
                        at(b@, pos as int, list_bytes(m)) && fits_word(m.len()) implies false by {
                        lemma_words_len(m);
                    }
                }
                return None;
            },
        };
        proof {
            assert forall|m: Seq<u64>| #[trigger]
                at(b@, pos as int, list_bytes(m)) && fits_word(m.len()) implies m[i as int] == x by {
                lemma_words_len(m);
                lemma_words_prefix(m, i + 1);
                lemma_at_prefix(b@, start as int, words_bytes(m), 8 * (i + 1));
                lemma_words_step(m, i as int);
                lemma_words_len(m.subrange(0, i as int));
                lemma_at_split(b@, start as int, words_bytes(m.subrange(0, i as int)), word_bytes(m[i as int]));
            }
            lemma_at_join(b@, start as int, words_bytes(v@), word_bytes(x));
            assert(v@.push(x).drop_last() =~= v@);
        }
        v.push(x);
        proof {
            assert forall|m: Seq<u64>| #[trigger]
                at(b@, pos as int, list_bytes(m)) && fits_word(m.len()) implies v@ == m.subrange(
                0,
                i + 1,
            ) by {
                assert(m.subrange(0, i + 1) =~= m.subrange(0, i as int).push(m[i as int]));
            }
        }
        p = q;
        i = i + 1;
    }
    proof {
        lemma_words_len(v@);
        lemma_at_join(b@, pos as int, word_bytes(n), words_bytes(v@));
        assert forall|m: Seq<u64>| #[trigger]
            at(b@, pos as int, list_bytes(m)) && fits_word(m.len()) implies v@ == m by {
            assert(m.subrange(0, m.len() as int) =~= m);
        }
    }
    Some((v, p))
}

proof fn lemma_event_parts(b: Seq<u8>, e: EventView)
    requires
        task_bytes(TaskView::Event(e)) == b,
    ensures
        b.len() >= 4 && b[0] == 0 && b[1] == 0 && b[2] == 0 && b[3] == 0,
        at(b, 4, word_bytes(e.author)),
        at(b, 12, word_bytes(e.channel)),
        at(b, 20, text_bytes(e.event)),
        at(b, 20 + text_bytes(e.event).len() as int, list_bytes(e.members)),
        at(b, (20 + text_bytes(e.event).len() + list_bytes(e.members).len()) as int, text_bytes(e.time)),
        b.len() == 20 + text_bytes(e.event).len() + list_bytes(e.members).len() + text_bytes(
            e.time,
        ).len(),
{
    lemma_word(e.author, e.author);
    lemma_word(e.channel, e.channel);
    let a1 = tag_bytes(0) + word_bytes(e.author);
    let a2 = a1 + word_bytes(e.channel);
    let a3 = a2 + text_bytes(e.event);
    let a4 = a3 + list_bytes(e.members);
    assert(b.subrange(0, b.len() as int) =~= b);
    lemma_at_split(b, 0, a4, text_bytes(e.time));
    lemma_at_split(b, 0, a3, list_bytes(e.members));
    lemma_at_split(b, 0, a2, text_bytes(e.event));
    lemma_at_split(b, 0, a1, word_bytes(e.channel));
    lemma_at_split(b, 0, tag_bytes(0), word_bytes(e.author));
    assert(b.subrange(0, 4)[0] == b[0]);
    assert(b.subrange(0, 4)[1] == b[1]);
    assert(b.subrange(0, 4)[2] == b[2]);
    assert(b.subrange(0, 4)[3] == b[3]);
}

proof fn lemma_poll_parts(b: Seq<u8>, q: PollView)
    requires
        task_bytes(TaskView::Poll(q)) == b,
    ensures
        b.len() >= 29 && b[0] == 1 && b[1] == 0 && b[2] == 0 && b[3] == 0,
        at(b, 4, word_bytes(q.author)),
        at(b, 12, word_bytes(q.channel)),
        at(b, 20, word_bytes(q.message)),
        b[28] == (if q.others { 1u8 } else { 0u8 }),
        at(b, 29, text_bytes(q.topic)),
        b.len() == 29 + text_bytes(q.topic).len(),
{
    lemma_word(q.author, q.author);
    lemma_word(q.channel, q.channel);
    lemma_word(q.message, q.message);
    let a1 = tag_bytes(1) + word_bytes(q.author);
    let a2 = a1 + word_bytes(q.channel);
    let a3 = a2 + word_bytes(q.message);
    let a4 = a3 + flag_bytes(q.others);
    assert(b.subrange(0, b.len() as int) =~= b);
    lemma_at_split(b, 0, a4, text_bytes(q.topic));
    lemma_at_split(b, 0, a3, flag_bytes(q.others));
    lemma_at_split(b, 0, a2, word_bytes(q.message));
    lemma_at_split(b, 0, a1, word_bytes(q.channel));
    lemma_at_split(b, 0, tag_bytes(1), word_bytes(q.author));
    assert(b.subrange(0, 4)[0] == b[0]);
    assert(b.subrange(0, 4)[1] == b[1]);
    assert(b.subrange(0, 4)[2] == b[2]);
    assert(b.subrange(0, 4)[3] == b[3]);
    assert(b.subrange(28, 29)[0] == b[28]);
}

proof fn lemma_at_whole(b: Seq<u8>, x: Seq<u8>)
    requires
        at(b, 0, x),
        x.len() == b.len(),
    ensures
        b == x,
{
    assert(b.subrange(0, b.len() as int) =~= b);
}

fn decode_event(b: &[u8]) -> (r: Option<Event>)
    requires
        b@.len() >= 4,
        b@[0] == 0 && b@[1] == 0 && b@[2] == 0 && b@[3] == 0,
    ensures
        r matches Some(e) ==> task_bytes(TaskView::Event(e@)) == b@ && encodable(
            TaskView::Event(e@),
        ),
        forall|ev: EventView| #[trigger]
            task_bytes(TaskView::Event(ev)) == b@ && encodable(TaskView::Event(ev)) ==> (
            r matches Some(e) && e@ == ev),
{
    let ghost bs = b@;
    proof {
        assert forall|ev: EventView| #[trigger] task_bytes(TaskView::Event(ev)) == bs implies {
            &&& at(bs, 4, word_bytes(ev.author))
            &&& at(bs, 12, word_bytes(ev.channel))
            &&& at(bs, 20, text_bytes(ev.event))
            &&& at(bs, 20 + text_bytes(ev.event).len() as int, list_bytes(ev.members))
            &&& at(bs, (20 + text_bytes(ev.event).len() + list_bytes(ev.members).len()) as int, text_bytes(ev.time))
            &&& bs.len() == 20 + text_bytes(ev.event).len() + list_bytes(ev.members).len()
                + text_bytes(ev.time).len()
        } by {
            lemma_event_parts(bs, ev);
        }
    }
    let (author, pos1) = match read_word(b, 4) {
        Some(w) => w,
        None => return None,
    };
    let (channel, pos2) = match read_word(b, pos1) {
        Some(w) => w,
        None => return None,
    };
    let (event, pos3) = match read_text(b, pos2) {
        Some(w) => w,
        None => return None,
    };
    let (members, pos4) = match read_list(b, pos3) {
        Some(w) => w,
        None => return None,
    };
    let (time, pos5) = match read_text(b, pos4) {
        Some(w) => w,
        None => return None,
    };
    if pos5 != b.len() {
        return None;
    }
    let e = Event { author, channel, event, members, time };
    proof {
        lemma_word(author, author);
        lemma_word(channel, channel);
        let t = TaskView::Event(e@);
        assert(at(bs, 0, tag_bytes(0))) by {
            assert(bs.subrange(0, 4) =~= tag_bytes(0));
        }
        lemma_at_join(bs, 0, tag_bytes(0), word_bytes(author));
        lemma_at_join(bs, 0, tag_bytes(0) + word_bytes(author), word_bytes(channel));
        lemma_at_join(bs, 0, tag_bytes(0) + word_bytes(author) + word_bytes(channel), text_bytes(e.event@));
        lemma_at_join(bs, 0, tag_bytes(0) + word_bytes(author) + word_bytes(channel) + text_bytes(e.event@), list_bytes(e.members@));
        lemma_at_join(bs, 0, tag_bytes(0) + word_bytes(author) + word_bytes(channel) + text_bytes(e.event@) + list_bytes(e.members@), text_bytes(e.time@));
        lemma_at_whole(bs, task_bytes(t));
        assert(bs.len() <= usize::MAX);
        lemma_words_len(e.members@);
        assert(text_bytes(e.event@).len() <= bs.len());
        assert(text_bytes(e.time@).len() <= bs.len());
        assert(list_bytes(e.members@).len() <= bs.len());
        assert(encodable(t));
    }
    Some(e)
}

fn decode_poll(b: &[u8]) -> (r: Option<Poll>)
    requires
        b@.len() >= 4,
        b@[0] == 1 && b@[1] == 0 && b@[2] == 0 && b@[3] == 0,
    ensures
        r matches Some(q) ==> task_bytes(TaskView::Poll(q@)) == b@ && encodable(
            TaskView::Poll(q@),
        ),
        forall|pv: PollView| #[trigger]
            task_bytes(TaskView::Poll(pv)) == b@ && encodable(TaskView::Poll(pv)) ==> (
            r matches Some(q) && q@ == pv),
{
    let ghost bs = b@;
    proof {
        assert forall|pv: PollView| #[trigger] task_bytes(TaskView::Poll(pv)) == bs implies {
            &&& bs.len() >= 29
            &&& at(bs, 4, word_bytes(pv.author))
            &&& at(bs, 12, word_bytes(pv.channel))
            &&& at(bs, 20, word_bytes(pv.message))
            &&& bs[28] == (if pv.others { 1u8 } else { 0u8 })
            &&& at(bs, 29, text_bytes(pv.topic))
            &&& bs.len() == 29 + text_bytes(pv.topic).len()
        } by {
            lemma_poll_parts(bs, pv);
        }
    }
    let (author, pos1) = match read_word(b, 4) {
        Some(w) => w,
        None => return None,
    };
    let (channel, pos2) = match read_word(b, pos1) {
        Some(w) => w,
        None => return None,
    };
    let (message, pos3) = match read_word(b, pos2) {
        Some(w) => w,
        None => return None,
    };
    if b.len() <= pos3 {
        return None;
    }
    let flag = b[pos3];
    let others = if flag == 0 {
        false
    } else if flag == 1 {
        true
    } else {
        return None;
    };
    let (topic, pos5) = match read_text(b, pos3 + 1) {
        Some(w) => w,
        None => return None,
    };
    if pos5 != b.len() {
        return None;
    }
    let q = Poll { author, channel, message, others, topic };
    proof {
        lemma_word(author, author);
        lemma_word(channel, channel);
        lemma_word(message, message);
        let t = TaskView::Poll(q@);
        assert(at(bs, 0, tag_bytes(1))) by {
            assert(bs.subrange(0, 4) =~= tag_bytes(1));
        }
        assert(at(bs, 28, flag_bytes(others))) by {
            assert(bs.subrange(28, 29) =~= flag_bytes(others));
        }
        lemma_at_join(bs, 0, tag_bytes(1), word_bytes(author));
        lemma_at_join(bs, 0, tag_bytes(1) + word_bytes(author), word_bytes(channel));
        lemma_at_join(bs, 0, tag_bytes(1) + word_bytes(author) + word_bytes(channel), word_bytes(message));
        lemma_at_join(bs, 0, tag_bytes(1) + word_bytes(author) + word_bytes(channel) + word_bytes(message), flag_bytes(others));
        lemma_at_join(bs, 0, tag_bytes(1) + word_bytes(author) + word_bytes(channel) + word_bytes(message) + flag_bytes(others), text_bytes(q.topic@));
        lemma_at_whole(bs, task_bytes(t));
        assert(bs.len() <= usize::MAX);
        assert(text_bytes(q.topic@).len() <= bs.len());
        assert(encodable(t));
    }
    Some(q)
}

/// The task whose stored form is `b`; a payload that is the stored form of no
/// task is refused.
pub fn decode(b: &[u8]) -> (r: Result<Task, CodecError>)
    ensures
        r matches Ok(t) ==> task_bytes(t@) == b@ && encodable(t@),
        forall|tv: TaskView| #[trigger]
            task_bytes(tv) == b@ && encodable(tv) ==> (r matches Ok(t) && t@ == tv),
        r is Err <==> !exists|tv: TaskView| task_bytes(tv) == b@ && encodable(tv),
{
    proof {
        assert forall|tv: TaskView| #[trigger] task_bytes(tv) == b@ implies b@.len() >= 4 && (
        match tv {
            TaskView::Event(_) => b@[0] == 0,
            TaskView::Poll(_) => b@[0] == 1,
        }) && b@[1] == 0 && b@[2] == 0 && b@[3] == 0 by {
            match tv {
                TaskView::Event(e) => lemma_event_parts(b@, e),
                TaskView::Poll(q) => lemma_poll_parts(b@, q),
            }
        }
    }
    if b.len() < 4 || b[1] != 0 || b[2] != 0 || b[3] != 0 {
        return Err(CodecError::Malformed);
    }
    if b[0] == 0 {
        match decode_event(b) {
            Some(e) => Ok(Task::Event(e)),
            None => Err(CodecError::Malformed),
        }
    } else if b[0] == 1 {
        match decode_poll(b) {
            Some(q) => Ok(Task::Poll(q)),
            None => Err(CodecError::Malformed),
        }
    } else {
        Err(CodecError::Malformed)
    }
}

proof fn lemma_at_same(b: Seq<u8>, pos: int, x: Seq<u8>, y: Seq<u8>)
    requires
        at(b, pos, x),
        at(b, pos, y),
        x.len() == y.len(),
    ensures
        x == y,
{
}

proof fn lemma_text_unique(b: Seq<u8>, pos: int, x: Seq<char>, y: Seq<char>)
    requires
        at(b, pos, text_bytes(x)),
        at(b, pos, text_bytes(y)),
        fits_word(encode_utf8(x).len()),
        fits_word(encode_utf8(y).len()),
    ensures
        x == y,
{
    let wx = word_bytes(encode_utf8(x).len() as u64);
    let wy = word_bytes(encode_utf8(y).len() as u64);
    lemma_at_split(b, pos, wx, encode_utf8(x));
    lemma_at_split(b, pos, wy, encode_utf8(y));
    lemma_word(encode_utf8(x).len() as u64, encode_utf8(y).len() as u64);
    lemma_word(encode_utf8(y).len() as u64, encode_utf8(y).len() as u64);
    lemma_at_same(b, pos, wx, wy);
    lemma_at_same(b, pos + 8, encode_utf8(x), encode_utf8(y));
    encode_utf8_decode_utf8(x);
    encode_utf8_decode_utf8(y);
}

proof fn lemma_words_unique(x: Seq<u64>, y: Seq<u64>)
    requires
        x.len() == y.len(),
        words_bytes(x) == words_bytes(y),
    ensures
        x == y,
    decreases x.len(),
{
    if x.len() > 0 {
        let a = words_bytes(x.drop_last());
        lemma_words_len(x.drop_last());
        lemma_words_len(y.drop_last());
        lemma_word(x.last(), y.last());
        lemma_word(y.last(), y.last());
        assert(words_bytes(x).subrange(0, a.len() as int) =~= a);
        assert(words_bytes(y).subrange(0, a.len() as int) =~= words_bytes(y.drop_last()));
        assert(words_bytes(x).subrange(a.len() as int, (a.len() + 8) as int) =~= word_bytes(x.last()));
        assert(words_bytes(y).subrange(a.len() as int, (a.len() + 8) as int) =~= word_bytes(y.last()));
        lemma_words_unique(x.drop_last(), y.drop_last());
        assert(x =~= x.drop_last().push(x.last()));
        assert(y =~= y.drop_last().push(y.last()));
    }
}

proof fn lemma_list_unique(b: Seq<u8>, pos: int, x: Seq<u64>, y: Seq<u64>)
    requires
        at(b, pos, list_bytes(x)),
        at(b, pos, list_bytes(y)),
        fits_word(x.len()),
        fits_word(y.len()),
    ensures
        x == y,
{
    let wx = word_bytes(x.len() as u64);
    let wy = word_bytes(y.len() as u64);
    lemma_at_split(b, pos, wx, words_bytes(x));
    lemma_at_split(b, pos, wy, words_bytes(y));
    lemma_word(x.len() as u64, y.len() as u64);
    lemma_word(y.len() as u64, y.len() as u64);
    lemma_at_same(b, pos, wx, wy);
    lemma_words_len(x);
    lemma_words_len(y);
    lemma_at_same(b, pos + 8, words_bytes(x), words_bytes(y));
    lemma_words_unique(x, y);
}

/// Two tasks with the same stored form are the same task.
pub proof fn lemma_task_bytes_injective(a: TaskView, b: TaskView)
    requires
        encodable(a),
        encodable(b),
        task_bytes(a) == task_bytes(b),
    ensures
        a == b,
{
    let bs = task_bytes(a);
    match a {
        TaskView::Event(x) => {
            lemma_event_parts(bs, x);
            match b {
                TaskView::Event(y) => {
                    lemma_event_parts(bs, y);
                    lemma_word(x.author, y.author);
                    lemma_word(y.author, y.author);
                    lemma_at_same(bs, 4, word_bytes(x.author), word_bytes(y.author));
                    lemma_word(x.channel, y.channel);
                    lemma_word(y.channel, y.channel);
                    lemma_at_same(bs, 12, word_bytes(x.channel), word_bytes(y.channel));
                    lemma_text_unique(bs, 20, x.event, y.event);
                    lemma_list_unique(bs, 20 + text_bytes(x.event).len() as int, x.members, y.members);
                    lemma_text_unique(
                        bs,
                        (20 + text_bytes(x.event).len() + list_bytes(x.members).len()) as int,
                        x.time,
                        y.time,
                    );
                },
                TaskView::Poll(y) => {
                    lemma_poll_parts(bs, y);
                },
            }
        },
        TaskView::Poll(x) => {
            lemma_poll_parts(bs, x);
            match b {
                TaskView::Event(y) => {
                    lemma_event_parts(bs, y);
                },
                TaskView::Poll(y) => {
                    lemma_poll_parts(bs, y);
                    lemma_word(x.author, y.author);
                    lemma_word(y.author, y.author);
                    lemma_at_same(bs, 4, word_bytes(x.author), word_bytes(y.author));
                    lemma_word(x.channel, y.channel);
                    lemma_word(y.channel, y.channel);
                    lemma_at_same(bs, 12, word_bytes(x.channel), word_bytes(y.channel));
                    lemma_word(x.message, y.message);
                    lemma_word(y.message, y.message);
                    lemma_at_same(bs, 20, word_bytes(x.message), word_bytes(y.message));
                    lemma_text_unique(bs, 29, x.topic, y.topic);
                },
            }
        },
    }
}

} // verus!
