//! A recursive-descent parser for whitespace-tolerant, fully parenthesized
//! prefix expressions:
//!
//! ```text
//! expr     := integer | "(" operator expr+ ")"
//! operator := "+" | "-" | "*"
//! integer  := ["-"] digit+
//! ```
//!
//! On success the parser hands back a fresh, unscheduled tree: preorder ids
//! from the requested base, all `depth_cost` zero, literals without children
//! and operators with at least one.  A failure names the offending position.

use vstd::prelude::*;
use vstd::string::StringSliceAdditionalSpecFns;

use crate::tree::{
    arity_ok, depths_zero, ids_from, ids_list, leafs_ok, size, size_list, OpType, Sexpr,
};

verus! {

/// What went wrong while parsing.
#[derive(Debug, Clone, Copy, PartialEq, Eq, Structural)]
pub enum ParseErrorKind {
    /// A byte that fits no rule of the grammar at this point.
    UnexpectedChar,
    /// The input ended where the grammar still needed something.
    UnexpectedEnd,
    /// A literal whose digits exceed the signed 64-bit range.
    IntOutOfRange,
}

/// A parse failure: the kind of fault and the byte position it was found at.
#[derive(Debug, Clone, Copy, PartialEq, Eq, Structural)]
pub struct ParseError {
    pub pos: usize,
    pub kind: ParseErrorKind,
}

/// Blank bytes the grammar tolerates between tokens.
pub open spec fn is_ws_b(b: u8) -> bool {
    b == 32 || b == 9 || b == 13 || b == 10
}

/// Decimal digit bytes.
pub open spec fn is_digit_b(b: u8) -> bool {
    48 <= b <= 57
}

/// The first position at or after `i` that holds no blank byte.
pub open spec fn spec_skip_ws(s: Seq<u8>, i: int) -> int
    decreases s.len() - i,
{
    if 0 <= i && i < s.len() && is_ws_b(s[i]) {
        spec_skip_ws(s, i + 1)
    } else {
        i
    }
}

/// The first position at or after `i` that holds no digit.
pub open spec fn spec_scan_digits(s: Seq<u8>, i: int) -> int
    decreases s.len() - i,
{
    if 0 <= i && i < s.len() && is_digit_b(s[i]) {
        spec_scan_digits(s, i + 1)
    } else {
        i
    }
}

/// The value of the decimal digit run `s[i..j)`.
pub open spec fn digits_val(s: Seq<u8>, i: int, j: int) -> int
    decreases j - i,
{
    if i >= j {
        0
    } else {
        digits_val(s, i, j - 1) * 10 + (s[j - 1] - 48)
    }
}

/// The grammar's `integer` rule at position `i`: optional blanks, an optional
/// minus sign (blanks allowed after it, as the original grammar tolerated),
/// then one or more digits.  The digit run must fit in `i64` before the sign
/// is applied.  Returns the value and the position after the digits.
pub open spec fn spec_parse_int(s: Seq<u8>, i: int) -> Result<(int, int), ParseError> {
    let i0 = spec_skip_ws(s, i);
    let neg = i0 < s.len() && s[i0] == 45;
    let i1 = if neg {
        spec_skip_ws(s, i0 + 1)
    } else {
        i0
    };
    let j = spec_scan_digits(s, i1);
    if i1 >= s.len() {
        Err(ParseError { pos: i1 as usize, kind: ParseErrorKind::UnexpectedEnd })
    } else if j == i1 {
        Err(ParseError { pos: i1 as usize, kind: ParseErrorKind::UnexpectedChar })
    } else if digits_val(s, i1, j) > i64::MAX {
        Err(ParseError { pos: i1 as usize, kind: ParseErrorKind::IntOutOfRange })
    } else if neg {
        Ok((-digits_val(s, i1, j), j))
    } else {
        Ok((digits_val(s, i1, j), j))
    }
}

/// The byte range `[i, j)` of `s` reads as exactly the tree `e`, whose
/// nodes carry preorder ids `id` up to (not including) `nid` and zero depth
/// annotations: the meaning of a successful parse.  A leading `(` names an
/// operator and encloses the children read one after another, each starting
/// where the previous ended, followed by `)`; anything else is an integer
/// read as [`spec_parse_int`] does.
pub open spec fn parses(s: Seq<u8>, i: int, j: int, id: int, nid: int, e: Sexpr) -> bool
    decreases e, 2int, 0int,
{
    let i0 = spec_skip_ws(s, i);
    if i0 < s.len() && s[i0] == 40 {
        let i1 = spec_skip_ws(s, i0 + 1);
        &&& i1 < s.len()
        &&& (if s[i1] == 43 {
            e.op is Plus
        } else if s[i1] == 45 {
            e.op is Minus
        } else if s[i1] == 42 {
            e.op is Mul
        } else {
            false
        })
        &&& e.id == id
        &&& e.depth_cost == 0
        &&& e.sexprs@.len() >= 1
        &&& parses_kids(s, i1, id + 1, nid, j, e.sexprs@)
    } else {
        &&& e.op matches OpType::Int(v) && spec_parse_int(s, i) == Ok::<(int, int), ParseError>(
            (v as int, j),
        )
        &&& e.sexprs@.len() == 0
        &&& e.id == id
        &&& nid == id + 1
        &&& e.depth_cost == 0
    }
}

/// The children `cs` read one after another from just after the operator at
/// `i1`, their ids from `id` up to `nid`, with the closing `)` ending the
/// whole form at `j`.
pub open spec fn parses_kids(s: Seq<u8>, i1: int, id: int, nid: int, j: int, cs: Seq<Sexpr>) -> bool
    decreases cs, 1int, 0int,
{
    exists|pts: Seq<(int, int)>|
        #![trigger pts.len()]
        parses_chain(s, pts, cs) && pts[0].0 == i1 + 1 && pts[0].1 == id && pts[pts.len()
            - 1].1 == nid && spec_skip_ws(s, pts[pts.len() - 1].0) + 1 == j && j - 1 < s.len()
            && s[j - 1] == 41
}

/// The children `cs` read one after another along the cut points `pts`:
/// child `q` spans from the position in `pts[q]` to the one in `pts[q + 1]`,
/// carrying the ids between the two marks.
pub open spec fn parses_chain(s: Seq<u8>, pts: Seq<(int, int)>, cs: Seq<Sexpr>) -> bool
    decreases cs, 0int, 0int,
{
    &&& pts.len() == cs.len() + 1
    &&& forall|q: int|
        0 <= q < cs.len() ==> parses(
            s,
            pts[q].0,
            pts[q + 1].0,
            pts[q].1,
            pts[q + 1].1,
            #[trigger] cs[q],
        )
}

/// Nothing at all parses at position `i` with preorder ids from `id`: how
/// the parser's failures are characterized.
pub open spec fn no_parse_at(s: Seq<u8>, i: int, id: int) -> bool {
    forall|e: Sexpr, j: int, nid: int| !(#[trigger] parses(s, i, j, id, nid, e))
}

/// Whatever parses begins, after blanks, with `(`, a minus sign or a digit
/// — in particular never at a `)` or at the end of the input.
proof fn lemma_parses_start(s: Seq<u8>, x: int, j: int, id: int, nid: int, e: Sexpr)
    requires
        parses(s, x, j, id, nid, e),
    ensures
        ({
            let i0 = spec_skip_ws(s, x);
            i0 < s.len() && (s[i0] == 40 || s[i0] == 45 || is_digit_b(s[i0]))
        }),
{
    let i0 = spec_skip_ws(s, x);
    if !(i0 < s.len() && s[i0] == 40) {
        assert(spec_parse_int(s, x) is Ok);
        if i0 < s.len() && s[i0] == 45 {
        } else {
            assert(i0 < s.len());
            if !is_digit_b(s[i0]) {
                assert(spec_scan_digits(s, i0) == i0);
                assert(false);
            }
        }
    }
}

/// Where leading blanks agree, failure carries over too.
proof fn lemma_no_parse_shift(s: Seq<u8>, a: int, b: int, id: int)
    requires
        spec_skip_ws(s, a) == spec_skip_ws(s, b),
        no_parse_at(s, b, id),
    ensures
        no_parse_at(s, a, id),
{
    assert forall|e: Sexpr, j: int, nid: int| !(#[trigger] parses(s, a, j, id, nid, e)) by {
        if parses(s, a, j, id, nid, e) {
            lemma_parses_shift(s, a, b, j, id, nid, e);
            assert(parses(s, b, j, id, nid, e));
        }
    }
}

/// Parsing is deterministic in its span: whatever two trees read from the
/// same position with the same id base, both end at the same position with
/// the same next id.
proof fn lemma_parses_ends_unique(
    s: Seq<u8>,
    x: int,
    id: int,
    j1: int,
    n1: int,
    d1: Sexpr,
    j2: int,
    n2: int,
    d2: Sexpr,
)
    requires
        parses(s, x, j1, id, n1, d1),
        parses(s, x, j2, id, n2, d2),
    ensures
        j1 == j2,
        n1 == n2,
    decreases d1, 1int, 0int,
{
    let i0 = spec_skip_ws(s, x);
    if i0 < s.len() && s[i0] == 40 {
        let i1 = spec_skip_ws(s, i0 + 1);
        let pts1 = choose|pts: Seq<(int, int)>|
            #![trigger pts.len()]
            parses_chain(s, pts, d1.sexprs@) && pts[0].0 == i1 + 1 && pts[0].1 == id + 1
                && pts[pts.len() - 1].1 == n1 && spec_skip_ws(s, pts[pts.len() - 1].0) + 1 == j1
                && j1 - 1 < s.len() && s[j1 - 1] == 41;
        let pts2 = choose|pts: Seq<(int, int)>|
            #![trigger pts.len()]
            parses_chain(s, pts, d2.sexprs@) && pts[0].0 == i1 + 1 && pts[0].1 == id + 1
                && pts[pts.len() - 1].1 == n2 && spec_skip_ws(s, pts[pts.len() - 1].0) + 1 == j2
                && j2 - 1 < s.len() && s[j2 - 1] == 41;
        let len1 = d1.sexprs@.len() as int;
        let len2 = d2.sexprs@.len() as int;
        if len1 < len2 {
            lemma_chain_cuts(s, pts1, d1.sexprs@, pts2, d2.sexprs@, len1);
            assert(parses(
                s,
                pts2[len1].0,
                pts2[len1 + 1].0,
                pts2[len1].1,
                pts2[len1 + 1].1,
                d2.sexprs@[len1],
            ));
            lemma_parses_start(
                s,
                pts2[len1].0,
                pts2[len1 + 1].0,
                pts2[len1].1,
                pts2[len1 + 1].1,
                d2.sexprs@[len1],
            );
            assert(spec_skip_ws(s, pts2[len1].0) == j1 - 1);
            assert(false);
        } else if len2 < len1 {
            lemma_chain_cuts(s, pts1, d1.sexprs@, pts2, d2.sexprs@, len2);
            assert(parses(
                s,
                pts1[len2].0,
                pts1[len2 + 1].0,
                pts1[len2].1,
                pts1[len2 + 1].1,
                d1.sexprs@[len2],
            ));
            lemma_parses_start(
                s,
                pts1[len2].0,
                pts1[len2 + 1].0,
                pts1[len2].1,
                pts1[len2 + 1].1,
                d1.sexprs@[len2],
            );
            assert(spec_skip_ws(s, pts1[len2].0) == j2 - 1);
            assert(false);
        } else {
            lemma_chain_cuts(s, pts1, d1.sexprs@, pts2, d2.sexprs@, len1);
            assert(pts1[len1] == pts2[len2]);
        }
    }
}

/// Two chains of children from the same cut point run through the same
/// cuts, as far as both reach.
proof fn lemma_chain_cuts(
    s: Seq<u8>,
    pts1: Seq<(int, int)>,
    cs1: Seq<Sexpr>,
    pts2: Seq<(int, int)>,
    cs2: Seq<Sexpr>,
    k: int,
)
    requires
        parses_chain(s, pts1, cs1),
        parses_chain(s, pts2, cs2),
        pts1[0] == pts2[0],
        0 <= k <= cs1.len(),
        k <= cs2.len(),
    ensures
        forall|q: int| 0 <= q <= k ==> (#[trigger] pts1[q]) == pts2[q],
    decreases cs1, 0int, k,
{
    if k > 0 {
        lemma_chain_cuts(s, pts1, cs1, pts2, cs2, k - 1);
        assert(parses(s, pts1[k - 1].0, pts1[k].0, pts1[k - 1].1, pts1[k].1, cs1[k - 1]));
        assert(parses(s, pts2[k - 1].0, pts2[k].0, pts2[k - 1].1, pts2[k].1, cs2[k - 1]));
        lemma_parses_ends_unique(
            s,
            pts1[k - 1].0,
            pts1[k - 1].1,
            pts1[k].0,
            pts1[k].1,
            cs1[k - 1],
            pts2[k].0,
            pts2[k].1,
            cs2[k - 1],
        );
    }
}

/// In the middle of reading a bracketed form — `(` and the operator seen,
/// some children read along the cuts `pts`, the reader now at the last
/// cut — if no expression starts there and no acceptable `)` stands there
/// either, then nothing at all parses as a whole form from `start`.
proof fn lemma_bracket_stuck(
    s: Seq<u8>,
    start: int,
    id: int,
    i1: int,
    pts: Seq<(int, int)>,
    cs: Seq<Sexpr>,
)
    requires
        ({
            let i0 = spec_skip_ws(s, start);
            i0 < s.len() && s[i0] == 40 && i1 == spec_skip_ws(s, i0 + 1)
        }),
        parses_chain(s, pts, cs),
        pts[0].0 == i1 + 1,
        pts[0].1 == id + 1,
        no_parse_at(s, pts[pts.len() - 1].0, pts[pts.len() - 1].1),
        ({
            let p2 = spec_skip_ws(s, pts[pts.len() - 1].0);
            !(cs.len() >= 1 && p2 < s.len() && s[p2] == 41)
        }),
    ensures
        no_parse_at(s, start, id),
{
    let q = cs.len() as int;
    let pos = pts[q].0;
    let nid = pts[q].1;
    assert forall|e: Sexpr, j: int, nid_e: int| !(#[trigger] parses(
        s,
        start,
        j,
        id,
        nid_e,
        e,
    )) by {
        if parses(s, start, j, id, nid_e, e) {
            let ptse = choose|p: Seq<(int, int)>|
                #![trigger p.len()]
                parses_chain(s, p, e.sexprs@) && p[0].0 == i1 + 1 && p[0].1 == id + 1 && p[
                    p.len() - 1].1 == nid_e && spec_skip_ws(s, p[p.len() - 1].0) + 1 == j && j
                    - 1 < s.len() && s[j - 1] == 41;
            let lene = e.sexprs@.len() as int;
            if lene < q {
                lemma_chain_cuts(s, ptse, e.sexprs@, pts, cs, lene);
                assert(parses(s, pts[lene].0, pts[lene + 1].0, pts[lene].1, pts[lene + 1].1, cs[
                    lene]));
                lemma_parses_shift(
                    s,
                    pts[lene].0,
                    ptse[lene].0,
                    pts[lene + 1].0,
                    pts[lene].1,
                    pts[lene + 1].1,
                    cs[lene],
                );
                lemma_parses_start(s, ptse[lene].0, pts[lene + 1].0, pts[lene].1, pts[lene
                    + 1].1, cs[lene]);
                assert(spec_skip_ws(s, ptse[lene].0) == j - 1);
                assert(false);
            } else if lene == q {
                lemma_chain_cuts(s, ptse, e.sexprs@, pts, cs, q);
                assert(ptse[q] == pts[q]);
                assert(spec_skip_ws(s, pos) == j - 1 && j - 1 < s.len() && s[j - 1] == 41);
                assert(e.sexprs@.len() >= 1);
                assert(false);
            } else {
                lemma_chain_cuts(s, ptse, e.sexprs@, pts, cs, q);
                assert(ptse[q] == pts[q]);
                assert(parses(s, ptse[q].0, ptse[q + 1].0, ptse[q].1, ptse[q + 1].1, e.sexprs@[
                    q]));
                assert(parses(s, pos, ptse[q + 1].0, nid, ptse[q + 1].1, e.sexprs@[q]));
                assert(false);
            }
        }
    }
}

/// Skipping blanks twice goes no further than once.
proof fn lemma_skip_ws_idem(s: Seq<u8>, i: int)
    ensures
        spec_skip_ws(s, spec_skip_ws(s, i)) == spec_skip_ws(s, i),
    decreases s.len() - i,
{
    if 0 <= i && i < s.len() && is_ws_b(s[i]) {
        lemma_skip_ws_idem(s, i + 1);
    }
}

/// A concrete chain of cut points witnesses that the children read as
/// claimed.
proof fn lemma_parses_kids_intro(
    s: Seq<u8>,
    i1: int,
    id: int,
    nid: int,
    j: int,
    cs: Seq<Sexpr>,
    pts: Seq<(int, int)>,
)
    requires
        parses_chain(s, pts, cs),
        pts[0].0 == i1 + 1,
        pts[0].1 == id,
        pts[pts.len() - 1].1 == nid,
        spec_skip_ws(s, pts[pts.len() - 1].0) + 1 == j,
        j - 1 < s.len(),
        s[j - 1] == 41,
    ensures
        parses_kids(s, i1, id, nid, j, cs),
{
}

/// Some prefix of `s` reads as exactly the tree `e`, its nodes numbered in
/// preorder from 0: what a successful top-level parse means.
pub open spec fn reads_prefix_as(s: Seq<u8>, e: Sexpr) -> bool {
    exists|j: int| #![trigger s.subrange(0, j)] parses(s, 0, j, 0, size(e) as int, e)
}

/// A known end position witnesses the prefix reading.
proof fn lemma_reads_prefix_intro(s: Seq<u8>, e: Sexpr, j: int)
    requires
        parses(s, 0, j, 0, size(e) as int, e),
    ensures
        reads_prefix_as(s, e),
{
    let w = s.subrange(0, j);
}

/// Where leading blanks agree, the integer rule reads the same thing.
proof fn lemma_parse_int_shift(s: Seq<u8>, a: int, b: int)
    requires
        spec_skip_ws(s, a) == spec_skip_ws(s, b),
    ensures
        spec_parse_int(s, a) == spec_parse_int(s, b),
{
}

/// Where leading blanks agree, the same range reads as the same tree.
proof fn lemma_parses_shift(s: Seq<u8>, a: int, b: int, j: int, id: int, nid: int, e: Sexpr)
    requires
        spec_skip_ws(s, a) == spec_skip_ws(s, b),
    ensures
        parses(s, a, j, id, nid, e) == parses(s, b, j, id, nid, e),
{
    lemma_parse_int_shift(s, a, b);
}

/// Blank-byte test.
fn is_ws(b: u8) -> (r: bool)
    ensures
        r == is_ws_b(b),
{
    b == 32 || b == 9 || b == 13 || b == 10
}

/// Advance past blanks.
fn skip_ws(s: &[u8], start: usize) -> (j: usize)
    requires
        start <= s@.len(),
    ensures
        start <= j <= s@.len(),
        j == spec_skip_ws(s@, start as int),
{
    let mut i = start;
    while i < s.len() && is_ws(s[i])
        invariant
            start <= i <= s@.len(),
            spec_skip_ws(s@, start as int) == spec_skip_ws(s@, i as int),
        decreases s@.len() - i,
    {
        i = i + 1;
    }
    i
}

/// Parse the `integer` rule at `start`, exactly as [`spec_parse_int`] reads it.
fn parse_int_at(s: &[u8], start: usize) -> (r: Result<(i64, usize), ParseError>)
    requires
        start <= s@.len(),
    ensures
        (r matches Ok(t) ==> spec_parse_int(s@, start as int) == Ok::<(int, int), ParseError>(
            (t.0 as int, t.1 as int),
        )),
        (r matches Ok(t) ==> start < t.1 <= s@.len()),
        (r matches Err(e) ==> spec_parse_int(s@, start as int) == Err::<(int, int), ParseError>(
            e,
        )),
{
    let i0 = skip_ws(s, start);
    let neg = i0 < s.len() && s[i0] == 45;
    let i1 = if neg {
        skip_ws(s, i0 + 1)
    } else {
        i0
    };
    if i1 >= s.len() {
        return Err(ParseError { pos: i1, kind: ParseErrorKind::UnexpectedEnd });
    }
    let mut j = i1;
    let mut val: i64 = 0;
    let mut overflow = false;
    while j < s.len() && 48 <= s[j] && s[j] <= 57
        invariant
            i1 <= j <= s@.len(),
            spec_scan_digits(s@, i1 as int) == spec_scan_digits(s@, j as int),
            !overflow ==> val == digits_val(s@, i1 as int, j as int) && val >= 0,
            overflow ==> digits_val(s@, i1 as int, j as int) > i64::MAX,
            overflow ==> j > i1,
        decreases s@.len() - j,
    {
        let d = s[j] - 48;
        if !overflow {
            match val.checked_mul(10) {
                None => {
                    proof {
                        assert(digits_val(s@, i1 as int, j + 1) == val * 10 + (s@[j as int]
                            - 48));
                    }
                    overflow = true;
                },
                Some(v10) => {
                    match v10.checked_add(d as i64) {
                        None => {
                            proof {
                                assert(digits_val(s@, i1 as int, j + 1) == val * 10 + (s@[
                                    j as int] - 48));
                            }
                            overflow = true;
                        },
                        Some(v) => {
                            val = v;
                        },
                    }
                },
            }
        } else {
            proof {
                assert(digits_val(s@, i1 as int, j + 1) == digits_val(s@, i1 as int, j as int)
                    * 10 + (s@[j as int] - 48));
            }
        }
        j = j + 1;
    }
    if j == i1 {
        return Err(ParseError { pos: i1, kind: ParseErrorKind::UnexpectedChar });
    }
    if overflow {
        return Err(ParseError { pos: i1, kind: ParseErrorKind::IntOutOfRange });
    }
    if neg {
        Ok((-val, j))
    } else {
        Ok((val, j))
    }
}

/// Children whose ids were assigned one after another, each subtree's block
/// directly after its left siblings', pack into the preorder discipline that
/// [`ids_list`] asks of the finished node.
proof fn lemma_ids_assemble(e: Sexpr, bases: Seq<int>, k: int)
    requires
        bases.len() == e.sexprs@.len() + 1,
        forall|q: int| 0 <= q < e.sexprs@.len() ==> ids_from(#[trigger] e.sexprs@[q], bases[q]),
        forall|q: int| 0 <= q < e.sexprs@.len() ==> bases[q + 1] == bases[q] + size(
            e.sexprs@[q],
        ),
        0 <= k <= e.sexprs@.len(),
    ensures
        ids_list(e, k, bases[0]),
        bases[k] == bases[0] + size_list(e, k),
    decreases k,
{
    if k > 0 {
        lemma_ids_assemble(e, bases, k - 1);
    }
}

/// Parse one expression at `start`, giving its nodes preorder ids from
/// `next_id` on.  Returns the tree, the position after it, and the next free
/// id.  The tree comes back fresh: preorder ids, zero depth annotations,
/// literals without children, operators with at least one, and no more nodes
/// than bytes consumed.  A leading integer is read exactly as
/// [`spec_parse_int`] does; a leading `(` yields the operator named there.
#[verifier::rlimit(60)]
pub fn parse_expr_at(s: &[u8], start: usize, next_id: usize) -> (r: Result<
    (Sexpr, usize, usize),
    ParseError,
>)
    requires
        start <= s@.len(),
        next_id + s@.len() - start <= usize::MAX,
    ensures
        (r matches Ok(t) ==> start < t.1 <= s@.len() && ids_from(t.0, next_id as int) && t.2
            == next_id + size(t.0) && size(t.0) <= t.1 - start && leafs_ok(t.0) && depths_zero(
            t.0,
        ) && arity_ok(t.0)),
        (r matches Ok(t) ==> parses(s@, start as int, t.1 as int, next_id as int, t.2 as int, t.0)),
        (r matches Err(er) ==> no_parse_at(s@, start as int, next_id as int)),
        ({
            let i0 = spec_skip_ws(s@, start as int);
            !(i0 < s@.len() && s@[i0] == 40) ==> (r matches Err(e) ==> spec_parse_int(
                s@,
                start as int,
            ) == Err::<(int, int), ParseError>(e))
        }),
    decreases s@.len() - start,
{
    let i0 = skip_ws(s, start);
    if i0 < s.len() && s[i0] == 40u8 {
        let i1 = skip_ws(s, i0 + 1);
        if i1 >= s.len() {
            proof {
                assert forall|e2: Sexpr, j2: int, n2: int| !(#[trigger] parses(
                    s@,
                    start as int,
                    j2,
                    next_id as int,
                    n2,
                    e2,
                )) by {
                    if parses(s@, start as int, j2, next_id as int, n2, e2) {
                        assert(spec_skip_ws(s@, i0 + 1) < s@.len());
                    }
                }
            }
            return Err(ParseError { pos: i1, kind: ParseErrorKind::UnexpectedEnd });
        }
        let op = if s[i1] == 43u8 {
            OpType::Plus
        } else if s[i1] == 45u8 {
            OpType::Minus
        } else if s[i1] == 42u8 {
            OpType::Mul
        } else {
            proof {
                assert forall|e2: Sexpr, j2: int, n2: int| !(#[trigger] parses(
                    s@,
                    start as int,
                    j2,
                    next_id as int,
                    n2,
                    e2,
                )) by {
                    if parses(s@, start as int, j2, next_id as int, n2, e2) {
                        assert(s@[spec_skip_ws(s@, i0 + 1)] == 43 || s@[spec_skip_ws(
                            s@,
                            i0 + 1,
                        )] == 45 || s@[spec_skip_ws(s@, i0 + 1)] == 42);
                    }
                }
            }
            return Err(ParseError { pos: i1, kind: ParseErrorKind::UnexpectedChar });
        };
        let mut children: Vec<Sexpr> = Vec::new();
        let mut pos = i1 + 1;
        let mut nid = next_id + 1;
        let ghost mut bases: Seq<int> = seq![(next_id + 1) as int];
        let ghost mut pts: Seq<(int, int)> = seq![((i1 + 1) as int, (next_id + 1) as int)];
        loop
            invariant
                start < pos <= s@.len(),
                start <= i0 < s@.len(),
                i0 == spec_skip_ws(s@, start as int),
                s@[i0 as int] == 40,
                i0 + 1 <= i1 < s@.len(),
                i1 == spec_skip_ws(s@, i0 + 1),
                !(op is Int),
                (s@[i1 as int] == 43 <==> op is Plus),
                (s@[i1 as int] == 45 <==> op is Minus),
                (s@[i1 as int] == 42 <==> op is Mul),
                next_id + s@.len() - start <= usize::MAX,
                bases.len() == children@.len() + 1,
                bases[0] == next_id + 1,
                forall|q: int| 0 <= q < children@.len() ==> ids_from(
                    #[trigger] children@[q],
                    bases[q],
                ),
                forall|q: int| 0 <= q < children@.len() ==> bases[q + 1] == bases[q] + size(
                    children@[q],
                ),
                forall|q: int| 0 <= q < children@.len() ==> leafs_ok(#[trigger] children@[q])
                    && depths_zero(children@[q]) && arity_ok(children@[q]),
                nid == bases[children@.len() as int],
                nid - next_id <= pos - start,
                next_id + 1 <= nid,
                pts.len() == children@.len() + 1,
                pts[0] == (((i1 + 1) as int, (next_id + 1) as int)),
                pts[pts.len() - 1] == ((pos as int, nid as int)),
                parses_chain(s@, pts, children@),
            decreases s@.len() - pos,
        {
            let p2 = skip_ws(s, pos);
            if children.len() > 0 && p2 < s.len() && s[p2] == 41u8 {
                let e = Sexpr { op, sexprs: children, depth_cost: 0, id: next_id };
                proof {
                    lemma_ids_assemble(e, bases, e.sexprs@.len() as int);
                    assert(spec_skip_ws(s@, pts[pts.len() - 1].0) == p2);
                    assert(parses_chain(s@, pts, e.sexprs@));
                    let j_end: int = p2 + 1;
                    assert(pts[0].0 == i1 + 1 && pts[0].1 == next_id + 1);
                    assert(pts[pts.len() - 1].1 == nid);
                    assert(spec_skip_ws(s@, pts[pts.len() - 1].0) + 1 == j_end);
                    assert(j_end - 1 < s@.len() && s@[j_end - 1] == 41);
                    lemma_parses_kids_intro(
                        s@,
                        i1 as int,
                        (next_id + 1) as int,
                        nid as int,
                        j_end,
                        e.sexprs@,
                        pts,
                    );
                    assert(parses(s@, start as int, (p2 + 1) as int, next_id as int, nid as int, e));
                }
                return Ok((e, p2 + 1, nid));
            }
            if p2 >= s.len() {
                proof {
                    assert(no_parse_at(s@, pos as int, nid as int)) by {
                        assert forall|e2: Sexpr, j2: int, n2: int| !(#[trigger] parses(
                            s@,
                            pos as int,
                            j2,
                            nid as int,
                            n2,
                            e2,
                        )) by {
                            if parses(s@, pos as int, j2, nid as int, n2, e2) {
                                lemma_parses_start(s@, pos as int, j2, nid as int, n2, e2);
                            }
                        }
                    }
                    lemma_bracket_stuck(
                        s@,
                        start as int,
                        next_id as int,
                        i1 as int,
                        pts,
                        children@,
                    );
                }
                return Err(ParseError { pos: p2, kind: ParseErrorKind::UnexpectedEnd });
            }
            match parse_expr_at(s, p2, nid) {
                Err(e) => {
                    proof {
                        lemma_skip_ws_idem(s@, pos as int);
                        lemma_no_parse_shift(s@, pos as int, p2 as int, nid as int);
                        lemma_bracket_stuck(
                            s@,
                            start as int,
                            next_id as int,
                            i1 as int,
                            pts,
                            children@,
                        );
                    }
                    return Err(e);
                },
                Ok((c, j2, nid2)) => {
                    proof {
                        bases = bases.push(nid2 as int);
                        lemma_skip_ws_idem(s@, pos as int);
                        assert(spec_skip_ws(s@, p2 as int) == p2);
                        lemma_parses_shift(
                            s@,
                            pos as int,
                            p2 as int,
                            j2 as int,
                            nid as int,
                            nid2 as int,
                            c,
                        );
                        let pts2 = pts.push(((j2 as int, nid2 as int)));
                        let cs2 = children@.push(c);
                        assert forall|q: int| 0 <= q < cs2.len() implies #[trigger] parses(
                            s@,
                            pts2[q].0,
                            pts2[q + 1].0,
                            pts2[q].1,
                            pts2[q + 1].1,
                            cs2[q],
                        ) by {
                            assert(parses_chain(s@, pts, children@));
                            if q < cs2.len() - 1 {
                                assert(0 <= q < children@.len());
                                assert(pts2[q] == pts[q] && pts2[q + 1] == pts[q + 1]
                                    && cs2[q] == children@[q]);
                                assert(parses(
                                    s@,
                                    pts[q].0,
                                    pts[q + 1].0,
                                    pts[q].1,
                                    pts[q + 1].1,
                                    children@[q],
                                ));
                            } else {
                                assert(q == children@.len());
                                assert(pts2[q] == pts[q] && cs2[q] == c);
                                assert(pts2[q + 1] == ((j2 as int, nid2 as int)));
                                assert(pts[q] == ((pos as int, nid as int)));
                                assert(parses(s@, pos as int, j2 as int, nid as int, nid2 as int, c));
                            }
                        }
                        pts = pts2;
                    }
                    children.push(c);
                    pos = j2;
                    nid = nid2;
                },
            }
        }
    } else {
        match parse_int_at(s, start) {
            Err(e) => {
                proof {
                    assert forall|e2: Sexpr, j2: int, n2: int| !(#[trigger] parses(
                        s@,
                        start as int,
                        j2,
                        next_id as int,
                        n2,
                        e2,
                    )) by {
                        if parses(s@, start as int, j2, next_id as int, n2, e2) {
                            assert(spec_parse_int(s@, start as int) is Ok);
                        }
                    }
                }
                Err(e)
            },
            Ok((v, j)) => {
                let e = Sexpr {
                    op: OpType::Int(v),
                    sexprs: Vec::new(),
                    depth_cost: 0,
                    id: next_id,
                };
                Ok((e, j, next_id + 1))
            },
        }
    }
}

/// Parse a whole expression from the start of `s`; bytes after the
/// expression are left unread, as the original grammar tolerated.  On
/// success the tree is fresh: preorder ids from 0, zero depth annotations,
/// literals childless, operators with at least one child, and at most one
/// node per input byte.
pub fn parse_sexpr(s: &str) -> (r: Result<Sexpr, ParseError>)
    ensures
        (r matches Ok(e) ==> ids_from(e, 0) && leafs_ok(e) && depths_zero(e) && arity_ok(e)
            && size(e) <= s.spec_bytes().len()),
        (r matches Ok(e) ==> reads_prefix_as(s.spec_bytes(), e)),
        ({
            let b = s.spec_bytes();
            let i0 = spec_skip_ws(b, 0);
            !(i0 < b.len() && b[i0] == 40) ==> (r matches Err(er) ==> spec_parse_int(b, 0)
                == Err::<(int, int), ParseError>(er))
        }),
        (r matches Err(er) ==> no_parse_at(s.spec_bytes(), 0, 0)),
        (r matches Err(er) ==> !(exists|e: Sexpr| #[trigger] reads_prefix_as(
            s.spec_bytes(),
            e,
        ))),
{
    let b = s.as_bytes();
    let n = b.len();
    match parse_expr_at(b, 0, 0) {
        Ok((e, rest, _nid)) => {
            proof {
                lemma_reads_prefix_intro(b@, e, rest as int);
            }
            Ok(e)
        },
        Err(er) => {
            proof {
                assert(!(exists|e: Sexpr| #[trigger] reads_prefix_as(b@, e))) by {
                    if exists|e: Sexpr| #[trigger] reads_prefix_as(b@, e) {
                        let e0 = choose|e: Sexpr| #[trigger] reads_prefix_as(b@, e);
                        let j0 = choose|j: int|
                            #![trigger b@.subrange(0, j)]
                            parses(b@, 0, j, 0, size(e0) as int, e0);
                        assert(parses(b@, 0, j0, 0, size(e0) as int, e0));
                        assert(false);
                    }
                }
            }
            Err(er)
        },
    }
}

/// Fold step used when gathering a bracketed operator's children: an error
/// on either side wins (the element's first), else the element is appended.
pub fn collect_sexprs(acc: Result<Vec<Sexpr>, ParseError>, expr: Result<Sexpr, ParseError>) -> (r:
    Result<Vec<Sexpr>, ParseError>)
    ensures
        (expr matches Err(e) ==> r matches Err(f) && f == e),
        (expr matches Ok(x) ==> acc matches Err(e) ==> r matches Err(f) && f == e),
        (expr matches Ok(x) ==> acc matches Ok(v) ==> r matches Ok(w) && w@ == v@.push(x)),
{
    match (acc, expr) {
        (_, Err(e)) => Err(e),
        (Err(e), Ok(_)) => Err(e),
        (Ok(mut v), Ok(x)) => {
            v.push(x);
            Ok(v)
        },
    }
}

} // verus!
