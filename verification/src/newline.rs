//! Where line feeds stand in a byte sequence: the last one, the one before
//! it, and how the last one of two joined sequences is found.
use vstd::prelude::*;

verus! {

/// The line feed byte, `'\n'`.
pub const LF: u8 = 0x0Au8;

/// The carriage return byte, `'\r'`.
pub const CR: u8 = 0x0Du8;

/// Index of the last line feed in `s`, or -1 when `s` holds none.
pub open spec fn last_lf(s: Seq<u8>) -> int
    decreases s.len(),
{
    if s.len() == 0 {
        -1
    } else if s.last() == LF {
        s.len() - 1
    } else {
        last_lf(s.drop_last())
    }
}

/// `s` holds no line feed.
pub open spec fn no_lf(s: Seq<u8>) -> bool {
    forall|k: int| 0 <= k < s.len() ==> s[k] != LF
}

/// The position just after the last line feed of `s`, or the length of `s`
/// when it holds none.
pub open spec fn lf_end_or_len(s: Seq<u8>) -> int {
    if last_lf(s) >= 0 {
        last_lf(s) + 1
    } else {
        s.len() as int
    }
}

/// `last_lf` points at a line feed after which none follows, and is -1
/// exactly when there is no line feed at all.
pub proof fn lemma_last_lf(s: Seq<u8>)
    ensures
        -1 <= last_lf(s) < s.len(),
        last_lf(s) >= 0 ==> s[last_lf(s)] == LF,
        forall|k: int| last_lf(s) < k < s.len() ==> s[k] != LF,
        last_lf(s) == -1 <==> no_lf(s),
    decreases s.len(),
{
    if s.len() > 0 {
        lemma_last_lf(s.drop_last());
        if s.last() != LF {
            assert forall|k: int| last_lf(s) < k < s.len() implies s[k] != LF by {
                if k < s.len() - 1 {
                    assert(s.drop_last()[k] == s[k]);
                }
            }
            if last_lf(s) >= 0 {
                assert(s.drop_last()[last_lf(s)] == s[last_lf(s)]);
            }
            if no_lf(s) {
                assert forall|k: int| 0 <= k < s.drop_last().len() implies s.drop_last()[k] != LF by {
                    assert(s.drop_last()[k] == s[k]);
                }
            }
        }
    }
}

/// A line feed at `j` with none after it is the last line feed.
pub proof fn lemma_last_lf_at(s: Seq<u8>, j: int)
    requires
        0 <= j < s.len(),
        s[j] == LF,
        forall|k: int| j < k < s.len() ==> s[k] != LF,
    ensures
        last_lf(s) == j,
{
    lemma_last_lf(s);
}

/// The last line feed of two joined sequences is the last one of the second
/// when it has one, and otherwise the last one of the first.
pub proof fn lemma_last_lf_concat(a: Seq<u8>, b: Seq<u8>)
    ensures
        last_lf(a + b) == if last_lf(b) >= 0 {
            a.len() + last_lf(b)
        } else {
            last_lf(a)
        },
{
    let s = a + b;
    lemma_last_lf(a);
    lemma_last_lf(b);
    if last_lf(b) >= 0 {
        let j = a.len() + last_lf(b);
        assert(s[j] == b[last_lf(b)]);
        assert forall|k: int| j < k < s.len() implies s[k] != LF by {
            assert(s[k] == b[k - a.len()]);
        }
        lemma_last_lf_at(s, j);
    } else if last_lf(a) >= 0 {
        let j = last_lf(a);
        assert(s[j] == a[j]);
        assert forall|k: int| j < k < s.len() implies s[k] != LF by {
            if k < a.len() {
                assert(s[k] == a[k]);
            } else {
                assert(s[k] == b[k - a.len()]);
            }
        }
        lemma_last_lf_at(s, j);
    } else {
        assert forall|k: int| 0 <= k < s.len() implies s[k] != LF by {
            if k < a.len() {
                assert(s[k] == a[k]);
            } else {
                assert(s[k] == b[k - a.len()]);
            }
        }
        lemma_last_lf(s);
    }
}

/// Index of the second-to-last line feed among `w[1..]` (the first byte of
/// `w` is never looked at), or -1 when `w[1..]` holds fewer than two.
pub open spec fn second_last_lf(w: Seq<u8>) -> int {
    if w.len() < 2 {
        -1
    } else {
        let tail = w.subrange(1, w.len() as int);
        let p = last_lf(tail);
        if p < 0 {
            -1
        } else {
            let q = last_lf(tail.take(p));
            if q < 0 {
                -1
            } else {
                q + 1
            }
        }
    }
}

/// `lf_end_or_len` is where the unterminated tail of `s` begins: no line
/// feed stands at or after it, and the byte just before it is a line feed
/// unless `s` holds none, in which case it is the length of `s`.
pub proof fn lemma_lf_end_or_len(s: Seq<u8>)
    ensures
        0 <= lf_end_or_len(s) <= s.len(),
        forall|k: int| lf_end_or_len(s) <= k < s.len() ==> s[k] != LF,
        no_lf(s) ==> lf_end_or_len(s) == s.len(),
        !no_lf(s) ==> lf_end_or_len(s) >= 1 && s[lf_end_or_len(s) - 1] == LF,
{
    lemma_last_lf(s);
}

/// What `second_last_lf` picks out: either -1, or an index of `w[1..]`
/// holding a line feed that is followed by exactly one more line feed; and
/// it is -1 exactly when `w[1..]` holds fewer than two line feeds.
pub proof fn lemma_second_last_lf(w: Seq<u8>)
    ensures
        second_last_lf(w) == -1 || (1 <= second_last_lf(w) < w.len() && w[second_last_lf(w)] == LF),
        second_last_lf(w) >= 0 ==> exists|b: int|
            second_last_lf(w) < b < w.len() && w[b] == LF && forall|k: int|
                second_last_lf(w) < k < w.len() && k != b ==> w[k] != LF,
        second_last_lf(w) == -1 ==> forall|a: int, b: int|
            1 <= a < b < w.len() && w[a] == LF ==> w[b] != LF,
{
    if w.len() >= 2 {
        let tail = w.subrange(1, w.len() as int);
        lemma_last_lf(tail);
        let p = last_lf(tail);
        if p < 0 {
            assert forall|a: int, b: int| 1 <= a < b < w.len() && w[a] == LF implies w[b] != LF by {
                assert(tail[a - 1] == w[a]);
            }
        } else {
            let head = tail.take(p);
            lemma_last_lf(head);
            let q = last_lf(head);
            if q < 0 {
                assert forall|a: int, b: int| 1 <= a < b < w.len() && w[a] == LF implies w[b] != LF by {
                    assert(tail[a - 1] == w[a]);
                    assert(tail[b - 1] == w[b]);
                    if a - 1 < p {
                        assert(head[a - 1] == tail[a - 1]);
                    }
                }
            } else {
                let r = q + 1;
                assert(head[q] == tail[q]);
                assert(tail[q] == w[r]);
                assert(tail[p] == w[p + 1]);
                assert forall|k: int| r < k < w.len() && k != p + 1 implies w[k] != LF by {
                    assert(tail[k - 1] == w[k]);
                    if k - 1 < p {
                        assert(head[k - 1] == tail[k - 1]);
                    }
                }
            }
        }
    }
}

/// Given the last two line feeds of `w[1..]`, at `a` and then `b`,
/// `second_last_lf` is `a`.
pub proof fn lemma_second_last_lf_at(w: Seq<u8>, a: int, b: int)
    requires
        1 <= a < b < w.len(),
        w[a] == LF,
        w[b] == LF,
        forall|k: int| a < k < w.len() && k != b ==> w[k] != LF,
    ensures
        second_last_lf(w) == a,
{
    lemma_second_last_lf(w);
    let r = second_last_lf(w);
    assert(r != -1);
    let b2 = choose|b2: int|
        r < b2 < w.len() && w[b2] == LF && forall|k: int| r < k < w.len() && k != b2 ==> w[k] != LF;
    if r < a {
        assert(a == b2);
        assert(b == b2);
    } else if r > a {
        assert(r == b);
    }
}

/// Index of the last line feed in `bytes[from..to]`, counted from the
/// start of `bytes`; `None` when that range holds none.
pub fn last_lf_in(bytes: &Vec<u8>, from: usize, to: usize) -> (r: Option<usize>)
    requires
        from <= to <= bytes@.len(),
    ensures
        r matches Some(k) ==> from <= k < to && k - from == last_lf(
            bytes@.subrange(from as int, to as int),
        ),
        r is None ==> last_lf(bytes@.subrange(from as int, to as int)) == -1,
{
    let ghost s = bytes@.subrange(from as int, to as int);
    let mut k = to;
    while k > from
        invariant
            from <= k <= to <= bytes@.len(),
            s == bytes@.subrange(from as int, to as int),
            forall|m: int| k - from <= m < s.len() ==> s[m] != LF,
        decreases k - from,
    {
        k = k - 1;
        if bytes[k] == 0x0A {
            proof {
                assert(s[k - from] == bytes@[k as int]);
                lemma_last_lf_at(s, k - from);
            }
            return Some(k);
        }
        assert(s[k - from] == bytes@[k as int]);
    }
    proof {
        lemma_last_lf(s);
    }
    None
}

/// Finds the second-to-last line feed among `bytes[1..]`, searching from
/// the end.
pub fn find_second_last_newline(bytes: &Vec<u8>) -> (r: Option<usize>)
    ensures
        r matches Some(j) ==> j == second_last_lf(bytes@) && 1 <= j && j + 1 < bytes@.len(),
        r is None ==> second_last_lf(bytes@) == -1,
{
    let len = bytes.len();
    if len < 2 {
        return None;
    }
    let ghost tail = bytes@.subrange(1, len as int);
    match last_lf_in(bytes, 1, len) {
        None => None,
        Some(p) => {
            proof {
                lemma_last_lf(tail);
                assert(tail.take(p - 1) =~= bytes@.subrange(1, p as int));
            }
            match last_lf_in(bytes, 1, p) {
                None => None,
                Some(q) => Some(q),
            }
        },
    }
}

} // verus!
