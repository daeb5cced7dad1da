//! The record splitter: recovers candidate JSON object substrings from the
//! corrupted concatenated stream.
//!
//! The stream's first byte is extraneous and is skipped. The rest is walked
//! by a scanner that tracks brace nesting depth (ignoring braces inside JSON
//! string literals, with backslash escapes): a candidate is emitted each
//! time the depth returns to zero, and a trailing unterminated candidate is
//! emitted as-is so that the parser can report it. The splitter itself
//! never fails.

use vstd::prelude::*;

verus! {

/// Scanner state: brace depth, whether the scanner stands inside a JSON
/// string literal, whether the previous byte opened a backslash escape, the
/// bytes of the candidate being built, and the candidates already emitted.
pub ghost struct Scan {
    pub depth: nat,
    pub in_str: bool,
    pub esc: bool,
    pub cur: Seq<u8>,
    pub done: Seq<Seq<u8>>,
}

/// The state before any byte is read.
pub open spec fn scan_init() -> Scan {
    Scan { depth: 0, in_str: false, esc: false, cur: Seq::empty(), done: Seq::empty() }
}

/// One step of the scanner.
pub open spec fn scan_byte(st: Scan, b: u8) -> Scan {
    if st.depth == 0 {
        if b == 123 {
            Scan { depth: 1, in_str: false, esc: false, cur: seq![b], done: st.done }
        } else {
            st
        }
    } else if st.in_str {
        if st.esc {
            Scan { esc: false, cur: st.cur.push(b), ..st }
        } else if b == 92 {
            Scan { esc: true, cur: st.cur.push(b), ..st }
        } else if b == 34 {
            Scan { in_str: false, cur: st.cur.push(b), ..st }
        } else {
            Scan { cur: st.cur.push(b), ..st }
        }
    } else {
        if b == 123 {
            Scan { depth: (st.depth + 1) as nat, cur: st.cur.push(b), ..st }
        } else if b == 125 {
            if st.depth == 1 {
                Scan { depth: 0, cur: Seq::empty(), done: st.done.push(st.cur.push(b)), ..st }
            } else {
                Scan { depth: (st.depth - 1) as nat, cur: st.cur.push(b), ..st }
            }
        } else if b == 34 {
            Scan { in_str: true, esc: false, cur: st.cur.push(b), ..st }
        } else {
            Scan { cur: st.cur.push(b), ..st }
        }
    }
}

/// The scanner folded over a byte sequence.
pub open spec fn scan_seq(st: Scan, bs: Seq<u8>) -> Scan
    decreases bs.len(),
{
    if bs.len() == 0 {
        st
    } else {
        scan_byte(scan_seq(st, bs.drop_last()), bs.last())
    }
}

/// The candidate substrings of a stream: skip the leading byte, scan the
/// rest, and emit a trailing unterminated candidate if one is open.
pub open spec fn split_spec(input: Seq<u8>) -> Seq<Seq<u8>> {
    if input.len() == 0 {
        Seq::empty()
    } else {
        let end = scan_seq(scan_init(), input.drop_first());
        if end.depth > 0 {
            end.done.push(end.cur)
        } else {
            end.done
        }
    }
}

proof fn lemma_scan_take_one_more(st: Scan, bs: Seq<u8>, i: int)
    requires
        0 <= i < bs.len(),
    ensures
        scan_seq(st, bs.take(i + 1)) == scan_byte(scan_seq(st, bs.take(i)), bs[i]),
{
    assert(bs.take(i + 1).drop_last() =~= bs.take(i));
    assert(bs.take(i + 1).last() == bs[i]);
}

/// The scanner's depth never exceeds the number of bytes read.
proof fn lemma_scan_depth_le(st: Scan, bs: Seq<u8>)
    ensures
        scan_seq(st, bs).depth <= st.depth + bs.len(),
    decreases bs.len(),
{
    if bs.len() > 0 {
        lemma_scan_depth_le(st, bs.drop_last());
    }
}

/// Splits the raw stream into candidate object substrings, one per brace
/// balanced region after the skipped leading byte, plus one trailing
/// candidate when the stream ends inside an object.
pub fn split_records(input: &[u8]) -> (r: Vec<Vec<u8>>)
    ensures
        r@.len() == split_spec(input@).len(),
        forall|j: int| 0 <= j < r@.len() ==> (#[trigger] r@[j])@ == split_spec(input@)[j],
{
    let n: usize = input.len();
    let mut done: Vec<Vec<u8>> = Vec::new();
    if n == 0 {
        return done;
    }
    let ghost body = input@.drop_first();
    let mut depth: usize = 0;
    let mut in_str: bool = false;
    let mut esc: bool = false;
    let mut cur: Vec<u8> = Vec::new();
    assert(body.take(0) =~= Seq::<u8>::empty());
    for i in 1..n
        invariant
            n == input@.len(),
            1 <= i <= n,
            body == input@.drop_first(),
            ({
                let st = scan_seq(scan_init(), body.take(i - 1));
                &&& depth == st.depth
                &&& in_str == st.in_str
                &&& esc == st.esc
                &&& cur@ == st.cur
                &&& done@.len() == st.done.len()
                &&& forall|j: int| 0 <= j < done@.len() ==> (#[trigger] done@[j])@ == st.done[j]
            }),
            depth <= i,
    {
        let ghost st = scan_seq(scan_init(), body.take(i - 1));
        proof {
            lemma_scan_take_one_more(scan_init(), body, i - 1);
            assert(body[i - 1] == input@[i as int]);
            lemma_scan_depth_le(scan_init(), body.take(i - 1));
        }
        let b = input[i];
        let ghost st2 = scan_byte(st, b);
        if depth == 0 {
            if b == 123 {
                depth = 1;
                in_str = false;
                esc = false;
                cur = Vec::new();
                cur.push(b);
                assert(cur@ =~= seq![b]);
            }
        } else if in_str {
            cur.push(b);
            if esc {
                esc = false;
            } else if b == 92 {
                esc = true;
            } else if b == 34 {
                in_str = false;
            }
        } else {
            if b == 123 {
                depth = depth + 1;
                cur.push(b);
            } else if b == 125 {
                if depth == 1 {
                    depth = 0;
                    cur.push(b);
                    let finished = cur;
                    cur = Vec::new();
                    done.push(finished);
                    assert(cur@ =~= Seq::<u8>::empty());
                } else {
                    depth = depth - 1;
                    cur.push(b);
                }
            } else if b == 34 {
                in_str = true;
                esc = false;
                cur.push(b);
            } else {
                cur.push(b);
            }
        }
        proof {
            assert(body.take(i as int) =~= body.take((i - 1) + 1));
        }
    }
    assert(body.take(n - 1) =~= body);
    if depth > 0 {
        done.push(cur);
    }
    done
}

/// A byte sequence that the scanner reads as exactly one complete
/// candidate object, ending balanced.
pub open spec fn lone_object(b: Seq<u8>) -> bool {
    let e = scan_seq(scan_init(), b);
    e.depth == 0 && e.done == seq![b]
}

/// Bytes that a resting scanner passes over without effect: anything that
/// does not open an object.
pub open spec fn neutral_bytes(s: Seq<u8>) -> bool {
    forall|i: int| 0 <= i < s.len() ==> s[i] != 123
}

/// A well-formed stream: each object text followed by its separator bytes.
pub open spec fn stream_cat(pieces: Seq<Seq<u8>>, seps: Seq<Seq<u8>>) -> Seq<u8>
    decreases pieces.len(),
{
    if pieces.len() == 0 {
        Seq::empty()
    } else {
        pieces.first() + seps.first() + stream_cat(pieces.drop_first(), seps.drop_first())
    }
}

proof fn lemma_scan_append(st: Scan, a: Seq<u8>, b: Seq<u8>)
    ensures
        scan_seq(st, a + b) == scan_seq(scan_seq(st, a), b),
    decreases b.len(),
{
    if b.len() == 0 {
        assert(a + b =~= a);
    } else {
        lemma_scan_append(st, a, b.drop_last());
        assert((a + b).drop_last() =~= a + b.drop_last());
        assert((a + b).last() == b.last());
    }
}

/// Scanning from any resting state emits the same candidates as scanning
/// from the initial state, appended to what was already emitted.
proof fn lemma_scan_from_rest(st: Scan, bs: Seq<u8>)
    requires
        st.depth == 0,
        st.cur == Seq::<u8>::empty(),
    ensures
        ({
            let a = scan_seq(st, bs);
            let b = scan_seq(scan_init(), bs);
            &&& a.depth == b.depth
            &&& a.cur == b.cur
            &&& a.done == st.done + b.done
            &&& (a.depth == 0 ==> a.cur == Seq::<u8>::empty())
            &&& (a.depth > 0 ==> a.in_str == b.in_str && a.esc == b.esc)
        }),
    decreases bs.len(),
{
    if bs.len() == 0 {
        assert(st.done + scan_seq(scan_init(), bs).done =~= st.done);
    } else {
        lemma_scan_from_rest(st, bs.drop_last());
        let a1 = scan_seq(st, bs.drop_last());
        let b1 = scan_seq(scan_init(), bs.drop_last());
        let x = bs.last();
        let a = scan_byte(a1, x);
        let b = scan_byte(b1, x);
        if b1.depth == 0 {
            if x == 123 {
                assert(a.done == st.done + b.done);
            } else {
                assert(a == a1 && b == b1);
            }
        } else {
            if !b1.in_str && x == 125 && b1.depth == 1 {
                assert(a.done =~= st.done + b.done);
            }
        }
    }
}

proof fn lemma_scan_neutral(st: Scan, s: Seq<u8>)
    requires
        st.depth == 0,
        neutral_bytes(s),
    ensures
        scan_seq(st, s) == st,
    decreases s.len(),
{
    if s.len() > 0 {
        assert(neutral_bytes(s.drop_last())) by {
            assert(forall|i: int|
                0 <= i < s.len() - 1 ==> #[trigger] s.drop_last()[i] == s[i]);
        }
        lemma_scan_neutral(st, s.drop_last());
        assert(s.last() != 123);
    }
}

proof fn lemma_scan_stream(st: Scan, pieces: Seq<Seq<u8>>, seps: Seq<Seq<u8>>)
    requires
        st.depth == 0,
        st.cur == Seq::<u8>::empty(),
        pieces.len() == seps.len(),
        forall|i: int| 0 <= i < pieces.len() ==> lone_object(#[trigger] pieces[i]),
        forall|i: int| 0 <= i < seps.len() ==> neutral_bytes(#[trigger] seps[i]),
    ensures
        scan_seq(st, stream_cat(pieces, seps)).done == st.done + pieces,
        scan_seq(st, stream_cat(pieces, seps)).depth == 0,
        scan_seq(st, stream_cat(pieces, seps)).cur == Seq::<u8>::empty(),
    decreases pieces.len(),
{
    if pieces.len() == 0 {
        assert(st.done + pieces =~= st.done);
    } else {
        let p0 = pieces.first();
        let s0 = seps.first();
        let rest = stream_cat(pieces.drop_first(), seps.drop_first());
        lemma_scan_append(st, p0, s0 + rest);
        lemma_scan_append(scan_seq(st, p0), s0, rest);
        assert(p0 + s0 + rest =~= p0 + (s0 + rest));
        lemma_scan_from_rest(st, p0);
        assert(lone_object(p0));
        let st1 = scan_seq(st, p0);
        assert(st1.depth == 0 && st1.cur == Seq::<u8>::empty());
        assert(st1.done =~= st.done.push(p0)) by {
            assert(st1.done == st.done + seq![p0]);
        }
        lemma_scan_neutral(st1, s0);
        lemma_scan_stream(st1, pieces.drop_first(), seps.drop_first());
        assert(st.done.push(p0) + pieces.drop_first() =~= st.done + pieces);
    }
}

/// Splitting a well-formed stream recovers exactly its objects: one leading
/// extraneous byte, then `k` complete object texts each followed by bytes
/// that open no object, split into exactly those `k` candidate substrings,
/// in order.
pub proof fn lemma_split_stream(lead: u8, pieces: Seq<Seq<u8>>, seps: Seq<Seq<u8>>)
    requires
        pieces.len() == seps.len(),
        forall|i: int| 0 <= i < pieces.len() ==> lone_object(#[trigger] pieces[i]),
        forall|i: int| 0 <= i < seps.len() ==> neutral_bytes(#[trigger] seps[i]),
    ensures
        split_spec(seq![lead] + stream_cat(pieces, seps)) == pieces,
{
    let input = seq![lead] + stream_cat(pieces, seps);
    assert(input.len() > 0);
    assert(input.drop_first() =~= stream_cat(pieces, seps));
    lemma_scan_stream(scan_init(), pieces, seps);
    assert(scan_init().done + pieces =~= pieces);
}

} // verus!
