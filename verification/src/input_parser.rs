use vstd::prelude::*;

use vstd::string::StrSliceExecFns;
use vstd::utf8::encode_utf8;

use crate::decimal::{dec_str, u64_to_dec_string};

verus! {

/// The newline byte that separates lines.
pub open spec fn nl() -> u8 {
    10
}

/// `pat` occurs in `hay` at byte position `pos`.
pub open spec fn occurs_at(hay: Seq<u8>, pat: Seq<u8>, pos: int) -> bool {
    &&& 0 <= pos
    &&& pos + pat.len() <= hay.len()
    &&& hay.subrange(pos, pos + pat.len()) == pat
}

/// `pos` is the first byte position where `pat` occurs in `hay`.
pub open spec fn is_first_match(hay: Seq<u8>, pat: Seq<u8>, pos: int) -> bool {
    &&& occurs_at(hay, pat, pos)
    &&& forall|p: int| 0 <= p < pos ==> !#[trigger] occurs_at(hay, pat, p)
}

/// The bytes `[p0, q)` of `s` form its first non-empty line: only
/// newlines come before `p0`, no newline sits inside, and `q` is a
/// newline or the end.
pub open spec fn is_first_nonempty_line(s: Seq<u8>, p0: int, q: int) -> bool {
    &&& 0 <= p0 < q <= s.len()
    &&& forall|t: int| 0 <= t < p0 ==> s[t] == nl()
    &&& forall|t: int| p0 <= t < q ==> s[t] != nl()
    &&& (q == s.len() || s[q] == nl())
}

/// How many newline bytes `s` holds.
pub open spec fn newline_count(s: Seq<u8>) -> int
    decreases s.len(),
{
    if s.len() == 0 {
        0
    } else {
        newline_count(s.drop_last()) + if s.last() == nl() {
            1int
        } else {
            0int
        }
    }
}

/// The length of the last line of `s`: the bytes after its last
/// newline.
pub open spec fn last_line_len(s: Seq<u8>) -> int
    decreases s.len(),
{
    if s.len() == 0 {
        0
    } else if s.last() == nl() {
        0
    } else {
        last_line_len(s.drop_last()) + 1
    }
}

/// The report for a position: `line L, column C` and a line break.
pub open spec fn line_col_text(line: int, column: int) -> Seq<char> {
    "line "@ + dec_str(line) + ", column "@ + dec_str(column) + "\n"@
}

/// Locates the first non-empty line of `error_str` inside `contents`
/// and renders its one-based line and column; the column counts bytes,
/// as the surrounding parser does.  When `error_str` has no non-empty
/// line a fixed apology is returned instead.
pub fn find_pattern_error(error_str: &str, contents: String) -> (r: String)
    requires
        forall|p0: int, q: int|
            is_first_nonempty_line(encode_utf8(error_str@), p0, q) ==> exists|pos: int|
                occurs_at(
                    encode_utf8(contents@),
                    encode_utf8(error_str@).subrange(p0, q),
                    pos,
                ),
    ensures
        (forall|t: int|
            0 <= t < encode_utf8(error_str@).len() ==> encode_utf8(error_str@)[t] == nl()) ==> r@
            == "failed to parse errorous lines."@,
        (exists|t: int|
            0 <= t < encode_utf8(error_str@).len() && encode_utf8(error_str@)[t] != nl())
            ==> exists|p0: int, q: int, pos: int|
            {
                &&& is_first_nonempty_line(encode_utf8(error_str@), p0, q)
                &&& #[trigger] is_first_match(
                    encode_utf8(contents@),
                    encode_utf8(error_str@).subrange(p0, q),
                    pos,
                )
                &&& r@ == line_col_text(
                    newline_count(encode_utf8(contents@).take(pos)) + 1,
                    last_line_len(encode_utf8(contents@).take(pos)) + 1,
                )
            },
{
    let eb: Vec<u8> = error_str.as_bytes_vec();
    let ghost ebs = encode_utf8(error_str@);
    let en = eb.len();
    // the first byte that is not a newline starts the first non-empty
    // line
    let mut p0: usize = 0;
    while p0 < en && eb[p0] == 10
        invariant
            p0 <= en,
            en == ebs.len(),
            eb@ == ebs,
            forall|t: int| 0 <= t < p0 ==> ebs[t] == nl(),
        decreases en - p0,
    {
        p0 += 1;
    }
    if p0 == en {
        return String::from_str("failed to parse errorous lines.");
    }
    let mut q: usize = p0;
    while q < en && eb[q] != 10
        invariant
            p0 <= q <= en,
            en == ebs.len(),
            eb@ == ebs,
            p0 < en,
            ebs[p0 as int] != nl(),
            forall|t: int| 0 <= t < p0 ==> ebs[t] == nl(),
            forall|t: int| p0 <= t < q ==> ebs[t] != nl(),
        decreases en - q,
    {
        q += 1;
    }
    proof {
        assert(is_first_nonempty_line(ebs, p0 as int, q as int));
    }
    let mut needle: Vec<u8> = Vec::new();
    let mut t: usize = p0;
    while t < q
        invariant
            p0 <= t <= q <= en,
            en == ebs.len(),
            eb@ == ebs,
            needle@ =~= ebs.subrange(p0 as int, t as int),
        decreases q - t,
    {
        needle.push(eb[t]);
        proof {
            assert(needle@ =~= ebs.subrange(p0 as int, t + 1));
        }
        t += 1;
    }
    proof {
        assert(needle@ =~= ebs.subrange(p0 as int, q as int));
    }
    let cb: Vec<u8> = contents.as_str().as_bytes_vec();
    let ghost cbs = encode_utf8(contents@);
    let m = needle.len();
    let cn = cb.len();
    proof {
        assert(exists|pos: int| occurs_at(cbs, needle@, pos));
    }
    if m > cn {
        proof {
            let pos = choose|pos: int| occurs_at(cbs, needle@, pos);
            assert(false);
        }
        return String::new();
    }
    let mut pos: usize = 0;
    let mut found = false;
    while !found && pos <= cn - m
        invariant
            m <= cn,
            pos + m <= cn + 1,
            m == needle@.len(),
            m >= 1,
            cn == cbs.len(),
            cb@ == cbs,
            eb@ == ebs,
            forall|p: int| 0 <= p < pos ==> !#[trigger] occurs_at(cbs, needle@, p),
            found ==> occurs_at(cbs, needle@, pos as int) && pos + m <= cn,
        decreases cn - pos + (if found {
            0int
        } else {
            1int
        }),
    {
        let mut k: usize = 0;
        let mut matches_here = true;
        while k < m
            invariant
                k <= m,
                m == needle@.len(),
                cn == cbs.len(),
                cb@ == cbs,
                pos + m <= cn,
                matches_here ==> forall|t2: int| 0 <= t2 < k ==> cbs[pos + t2] == needle@[t2],
                !matches_here ==> exists|t2: int| 0 <= t2 < m && cbs[pos + t2] != needle@[t2],
            decreases m - k,
        {
            if cb[pos + k] != needle[k] {
                matches_here = false;
            }
            k += 1;
        }
        if matches_here {
            proof {
                assert(cbs.subrange(pos as int, pos + m) =~= needle@);
                assert(occurs_at(cbs, needle@, pos as int));
            }
            found = true;
        } else {
            proof {
                assert(!occurs_at(cbs, needle@, pos as int)) by {
                    if occurs_at(cbs, needle@, pos as int) {
                        let t2 = choose|t2: int| 0 <= t2 < m && cbs[pos + t2] != needle@[t2];
                        assert(cbs.subrange(pos as int, pos + m)[t2] == needle@[t2]);
                    }
                }
            }
            pos += 1;
        }
    }
    if !found {
        proof {
            let w = choose|w: int| occurs_at(cbs, needle@, w);
            assert(w + m > cn || w < pos);
            assert(false);
        }
        return String::new();
    }
    proof {
        assert(is_first_match(cbs, needle@, pos as int));
    }
    // count the full lines before the match, and the bytes of the line
    // it sits on
    let mut nl_cnt: usize = 0;
    let mut i: usize = 0;
    while i < pos
        invariant
            i <= pos,
            pos <= cn,
            cn == cbs.len(),
            cb@ == cbs,
            nl_cnt <= i,
            nl_cnt == newline_count(cbs.take(i as int)),
        decreases pos - i,
    {
        proof {
            assert(cbs.take(i + 1).drop_last() =~= cbs.take(i as int));
            assert(cbs.take(i + 1).last() == cbs[i as int]);
        }
        if cb[i] == 10 {
            nl_cnt += 1;
        }
        i += 1;
    }
    let mut k: usize = pos;
    while k > 0 && cb[k - 1] != 10
        invariant
            k <= pos,
            pos <= cn,
            cn == cbs.len(),
            cb@ == cbs,
            last_line_len(cbs.take(pos as int)) == pos - k + last_line_len(cbs.take(k as int)),
        decreases k,
    {
        proof {
            assert(cbs.take(k as int).drop_last() =~= cbs.take(k - 1));
            assert(cbs.take(k as int).last() == cbs[k - 1]);
        }
        k -= 1;
    }
    proof {
        if k == 0 {
            assert(cbs.take(0).len() == 0);
        } else {
            assert(cbs.take(k as int).last() == cbs[k - 1]);
        }
        assert(last_line_len(cbs.take(pos as int)) == pos - k);
    }
    let line_num: u64 = (nl_cnt as u64) + 1;
    let column: u64 = ((pos - k) as u64) + 1;
    let line_s = u64_to_dec_string(line_num);
    let col_s = u64_to_dec_string(column);
    let mut r = String::new();
    r.append("line ");
    r.append(line_s.as_str());
    r.append(", column ");
    r.append(col_s.as_str());
    r.append("\n");
    proof {
        assert(r@ =~= line_col_text(
            newline_count(cbs.take(pos as int)) + 1,
            last_line_len(cbs.take(pos as int)) + 1,
        ));
    }
    r
}

} // verus!
