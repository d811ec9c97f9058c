//! The line-oriented level text format.
//!
//! Two directive kinds: `PLAYER_START <x> <y>` sets the player's start
//! cell, and `TILE "<KindName>" <x>:<y> <x>:<y> ...` inserts all listed
//! cells of one tile kind. An unknown directive word, an unknown tile
//! name, a malformed or out-of-range coordinate, or missing
//! `PLAYER_START` arguments abort the load with no partial result.

use vstd::prelude::*;
use crate::vec2::Vec2;
use crate::tile::{Tile, TILE_SIZE_LIMIT};
use crate::tile_map::{TileMap, GRID_LIMIT, TILE_COUNT_LIMIT};

verus! {

/// Token separators inside a line: space, tab, carriage return.
pub open spec fn is_sep(c: u8) -> bool {
    c == 32 || c == 9 || c == 13
}

/// A byte that continues a token.
pub open spec fn is_token_byte(c: u8) -> bool {
    !is_sep(c) && c != 10
}

/// The text split at newlines into lines, each line split at separators
/// into its non-empty tokens.
pub open spec fn spec_token_lines(s: Seq<u8>) -> Seq<Seq<Seq<u8>>>
    decreases s.len(),
{
    if s.len() == 0 {
        seq![Seq::<Seq<u8>>::empty()]
    } else {
        let r = spec_token_lines(s.drop_last());
        let c = s.last();
        if c == 10 {
            r.push(Seq::<Seq<u8>>::empty())
        } else if is_sep(c) {
            r
        } else {
            let starting = s.len() == 1 || !is_token_byte(s[s.len() - 2]);
            let line = r.last();
            if starting {
                r.update(r.len() - 1, line.push(seq![c]))
            } else {
                r.update(r.len() - 1, line.update(line.len() - 1, line.last().push(c)))
            }
        }
    }
}

/// The split always yields at least one line, and after a token byte the
/// last line ends in a non-empty token.
proof fn lemma_token_lines_shape(s: Seq<u8>)
    ensures
        spec_token_lines(s).len() >= 1,
        s.len() > 0 && is_token_byte(s.last()) ==> {
            let last_line = spec_token_lines(s).last();
            last_line.len() >= 1 && last_line.last().len() >= 1
        },
    decreases s.len(),
{
    if s.len() > 0 {
        lemma_token_lines_shape(s.drop_last());
    }
}

/// The views of a token list.
pub open spec fn token_views(ts: Seq<Vec<u8>>) -> Seq<Seq<u8>> {
    ts.map_values(|t: Vec<u8>| t@)
}

/// The views of a line list.
pub open spec fn line_views(ls: Seq<Vec<Vec<u8>>>) -> Seq<Seq<Seq<u8>>> {
    ls.map_values(|l: Vec<Vec<u8>>| token_views(l@))
}

/// Split the text into lines of whitespace-separated tokens.
fn tokenize(text: &[u8]) -> (r: Vec<Vec<Vec<u8>>>)
    ensures
        line_views(r@) == spec_token_lines(text@),
        r@.len() >= 1,
{
    let n = text.len();
    let mut lines: Vec<Vec<Vec<u8>>> = Vec::new();
    lines.push(Vec::new());
    proof {
        assert(line_views(lines@) =~~= spec_token_lines(text@.subrange(0, 0)));
    }
    let mut i: usize = 0;
    while i < n
        invariant
            n == text@.len(),
            0 <= i <= n,
            lines@.len() >= 1,
            line_views(lines@) == spec_token_lines(text@.subrange(0, i as int)),
            i > 0 && is_token_byte(text@[i - 1]) ==> lines@.last()@.len() >= 1
                && lines@.last()@.last()@.len() >= 1,
        decreases n - i,
    {
        let ghost prefix = text@.subrange(0, i as int);
        let ghost prefix2 = text@.subrange(0, i + 1);
        proof {
            assert(prefix2.drop_last() =~= prefix);
            assert(prefix2.last() == text@[i as int]);
            if i > 0 {
                assert(prefix2[prefix2.len() - 2] == text@[i - 1]);
            }
            lemma_token_lines_shape(prefix);
        }
        let c = text[i];
        if c == 10 {
            lines.push(Vec::new());
            proof {
                assert(line_views(lines@) =~~= spec_token_lines(prefix2));
            }
        } else if c == 32 || c == 9 || c == 13 {
            proof {
                assert(line_views(lines@) =~~= spec_token_lines(prefix2));
            }
        } else {
            let starting = i == 0 || {
                let p = text[i - 1];
                p == 32 || p == 9 || p == 13 || p == 10
            };
            let mut line = match lines.pop() {
                Some(l) => l,
                None => Vec::new(),
            };
            if starting {
                let mut tok: Vec<u8> = Vec::new();
                tok.push(c);
                proof {
                    assert(tok@ =~= seq![c]);
                }
                line.push(tok);
            } else {
                let mut tok = match line.pop() {
                    Some(t) => t,
                    None => Vec::new(),
                };
                tok.push(c);
                line.push(tok);
            }
            lines.push(line);
            proof {
                assert(line_views(lines@) =~~= spec_token_lines(prefix2));
            }
        }
        i = i + 1;
    }
    proof {
        assert(text@.subrange(0, n as int) =~= text@);
        lemma_token_lines_shape(text@);
    }
    lines
}

/// A decimal digit.
pub open spec fn is_digit(c: u8) -> bool {
    48 <= c <= 57
}

/// Every byte is a digit.
pub open spec fn all_digits(s: Seq<u8>) -> bool {
    forall|i: int| 0 <= i < s.len() ==> is_digit(#[trigger] s[i])
}

/// The value of a digit string.
pub open spec fn digits_val(s: Seq<u8>) -> int
    decreases s.len(),
{
    if s.len() == 0 {
        0
    } else {
        digits_val(s.drop_last()) * 10 + (s.last() - 48)
    }
}

/// The integer a token denotes: an optional leading minus sign followed
/// by at least one decimal digit.
pub open spec fn spec_parse_int(s: Seq<u8>) -> Option<int> {
    if s.len() >= 2 && s[0] == 45 && all_digits(s.skip(1)) {
        Some(-digits_val(s.skip(1)))
    } else if s.len() >= 1 && all_digits(s) {
        Some(digits_val(s))
    } else {
        None
    }
}

/// A digit string's value is non-negative and grows along its prefixes.
proof fn lemma_digits_val_bounds(s: Seq<u8>)
    requires
        all_digits(s),
    ensures
        digits_val(s) >= 0,
        s.len() > 0 ==> digits_val(s) >= digits_val(s.drop_last()),
    decreases s.len(),
{
    if s.len() > 0 {
        assert(forall|i: int| 0 <= i < s.drop_last().len()
            ==> is_digit(#[trigger] s.drop_last()[i]));
        lemma_digits_val_bounds(s.drop_last());
        let p = digits_val(s.drop_last());
        assert(p * 10 >= p) by (nonlinear_arith)
            requires p >= 0;
    }
}

/// Parse a decimal integer token; rejects anything malformed and any
/// value outside a conservative range.
fn parse_i64(token: &[u8]) -> (r: Option<i64>)
    ensures
        match r {
            Some(v) => spec_parse_int(token@) == Some(v as int)
                && -0x4000_0000_0000_0000 <= v <= 0x4000_0000_0000_0000,
            None => spec_parse_int(token@) is None
                || spec_parse_int(token@)->Some_0 > 0x4000_0000_0000_0000
                || spec_parse_int(token@)->Some_0 < -0x4000_0000_0000_0000,
        },
{
    let n = token.len();
    if n == 0 {
        return None;
    }
    let negative = token[0] == 45;
    let start: usize = if negative { 1 } else { 0 };
    if negative && n == 1 {
        return None;
    }
    let ghost digits = token@.subrange(start as int, n as int);
    proof {
        if negative {
            assert(digits =~= token@.skip(1));
        } else {
            assert(digits =~= token@);
        }
    }
    let mut acc: i64 = 0;
    let mut i: usize = start;
    while i < n
        invariant
            n == token@.len(),
            n >= 1,
            start <= i <= n,
            negative == (token@[0] == 45),
            start == if negative { 1int } else { 0int },
            negative ==> n >= 2,
            digits == token@.subrange(start as int, n as int),
            negative ==> digits =~= token@.skip(1),
            !negative ==> digits =~= token@,
            all_digits(token@.subrange(start as int, i as int)),
            acc == digits_val(token@.subrange(start as int, i as int)),
            0 <= acc <= 0x4000_0000_0000_0000,
        decreases n - i,
    {
        let c = token[i];
        if c < 48 || c > 57 {
            proof {
                assert(digits[i - start] == c);
                assert(!all_digits(digits));
                assert(!all_digits(token@)) by {
                    if negative {
                        assert(!is_digit(token@[0]));
                    } else {
                        assert(token@ =~= digits);
                    }
                }
                assert(spec_parse_int(token@) is None);
            }
            return None;
        }
        let d = (c - 48) as i64;
        let limit = (0x4000_0000_0000_0000i64 - d) / 10;
        if acc > limit {
            proof {
                let prefix_done = token@.subrange(start as int, i + 1);
                assert(prefix_done.drop_last() =~= token@.subrange(start as int, i as int));
                assert(prefix_done.last() == c);
                assert(digits_val(prefix_done) == acc * 10 + d);
                assert(acc * 10 + d > 0x4000_0000_0000_0000) by (nonlinear_arith)
                    requires
                        acc > limit,
                        limit == (0x4000_0000_0000_0000 - d) / 10,
                        0 <= d <= 9;
                if all_digits(digits) {
                    lemma_digits_prefix_monotone(digits, i + 1 - start);
                    assert(prefix_done =~= digits.subrange(0, i + 1 - start));
                    assert(digits_val(digits) >= digits_val(prefix_done));
                    if negative {
                        assert(spec_parse_int(token@) == Some(-digits_val(digits)));
                    } else {
                        assert(spec_parse_int(token@) == Some(digits_val(digits)));
                    }
                } else {
                    assert(!all_digits(token@)) by {
                        if negative {
                            assert(!is_digit(token@[0]));
                        } else {
                            assert(token@ =~= digits);
                        }
                    }
                    assert(spec_parse_int(token@) is None);
                }
            }
            return None;
        }
        proof {
            let prefix_done = token@.subrange(start as int, i + 1);
            assert(prefix_done.drop_last() =~= token@.subrange(start as int, i as int));
            assert(prefix_done.last() == c);
            assert(0 <= acc * 10 + d <= 0x4000_0000_0000_0000) by (nonlinear_arith)
                requires
                    0 <= acc <= limit,
                    limit == (0x4000_0000_0000_0000 - d) / 10,
                    0 <= d <= 9;
        }
        acc = acc * 10 + d;
        i = i + 1;
    }
    proof {
        assert(token@.subrange(start as int, n as int) == digits);
        assert(all_digits(digits));
        if negative {
            assert(token@.len() >= 2 && token@[0] == 45);
            assert(spec_parse_int(token@) == Some(-digits_val(digits)));
        } else {
            assert(token@ =~= digits);
            assert(spec_parse_int(token@) == Some(digits_val(digits)));
        }
    }
    if negative {
        Some(-acc)
    } else {
        Some(acc)
    }
}

/// A digit string's value covers the value of any of its prefixes.
proof fn lemma_digits_prefix_monotone(s: Seq<u8>, k: int)
    requires
        0 <= k <= s.len(),
        all_digits(s),
    ensures
        digits_val(s) >= digits_val(s.subrange(0, k)),
    decreases s.len() - k,
{
    if k < s.len() {
        lemma_digits_prefix_monotone(s, k + 1);
        let a = s.subrange(0, k);
        let b = s.subrange(0, k + 1);
        assert(b.drop_last() =~= a);
        assert(forall|i: int| 0 <= i < a.len() ==> is_digit(#[trigger] a[i]));
        lemma_digits_val_bounds(a);
        assert(digits_val(b) == digits_val(a) * 10 + (b.last() - 48));
        assert(digits_val(a) * 10 >= digits_val(a)) by (nonlinear_arith)
            requires digits_val(a) >= 0;
    } else {
        assert(s.subrange(0, k) =~= s);
    }
}

/// The index of the first colon, or the length if there is none.
pub open spec fn colon_ix(s: Seq<u8>) -> int
    decreases s.len(),
{
    if s.len() == 0 {
        0
    } else if s[0] == 58 {
        0
    } else {
        1 + colon_ix(s.skip(1))
    }
}

/// `colon_ix` is the first colon position.
proof fn lemma_colon_ix(s: Seq<u8>)
    ensures
        0 <= colon_ix(s) <= s.len(),
        forall|j: int| 0 <= j < colon_ix(s) ==> s[j] != 58,
        colon_ix(s) < s.len() ==> s[colon_ix(s)] == 58,
    decreases s.len(),
{
    if s.len() > 0 && s[0] != 58 {
        lemma_colon_ix(s.skip(1));
        assert(forall|j: int| 0 <= j < colon_ix(s.skip(1)) ==> s.skip(1)[j] != 58);
        assert forall|j: int| 0 <= j < colon_ix(s) implies s[j] != 58 by {
            if j > 0 {
                assert(s.skip(1)[j - 1] == s[j]);
            }
        }
        if colon_ix(s) < s.len() {
            assert(s.skip(1)[colon_ix(s.skip(1))] == s[colon_ix(s)]);
        }
    }
}

/// Any position with a clean prefix that hits a colon (or the end) is
/// `colon_ix`.
proof fn lemma_colon_ix_unique(s: Seq<u8>, u: int)
    requires
        0 <= u <= s.len(),
        forall|j: int| 0 <= j < u ==> s[j] != 58,
        u < s.len() ==> s[u] == 58,
    ensures
        u == colon_ix(s),
{
    lemma_colon_ix(s);
    if u < colon_ix(s) {
        assert(s[u] != 58);
    }
    if colon_ix(s) < u {
        assert(s[colon_ix(s)] != 58);
    }
}

/// The coordinate a token denotes: an integer, a colon, an integer;
/// anything after a second colon is ignored.
pub open spec fn spec_parse_coord(s: Seq<u8>) -> Option<(int, int)> {
    let k = colon_ix(s);
    if k >= s.len() {
        None
    } else {
        let xs = s.subrange(0, k);
        let rest = s.skip(k + 1);
        let ys = rest.subrange(0, colon_ix(rest));
        match (spec_parse_int(xs), spec_parse_int(ys)) {
            (Some(x), Some(y)) => Some((x, y)),
            _ => None,
        }
    }
}

/// Parse an `x:y` grid coordinate token.
fn parse_coord(token: &[u8]) -> (r: Option<(i64, i64)>)
    ensures
        match r {
            Some((x, y)) => spec_parse_coord(token@) == Some((x as int, y as int))
                && -0x4000_0000_0000_0000 <= x <= 0x4000_0000_0000_0000
                && -0x4000_0000_0000_0000 <= y <= 0x4000_0000_0000_0000,
            None => match spec_parse_coord(token@) {
                Some((x, y)) => x > 0x4000_0000_0000_0000 || x < -0x4000_0000_0000_0000
                    || y > 0x4000_0000_0000_0000 || y < -0x4000_0000_0000_0000,
                None => true,
            },
        },
{
    let n = token.len();
    let mut k: usize = 0;
    while k < n && token[k] != 58
        invariant
            n == token@.len(),
            0 <= k <= n,
            forall|j: int| 0 <= j < k ==> token@[j] != 58,
        decreases n - k,
    {
        k = k + 1;
    }
    proof {
        lemma_colon_ix_unique(token@, k as int);
    }
    if k >= n {
        return None;
    }
    let mut xs: Vec<u8> = Vec::new();
    let mut i: usize = 0;
    while i < k
        invariant
            0 <= i <= k < n == token@.len(),
            xs@ == token@.subrange(0, i as int),
        decreases k - i,
    {
        xs.push(token[i]);
        proof {
            assert(xs@ =~= token@.subrange(0, i + 1));
        }
        i = i + 1;
    }
    let ghost rest = token@.skip(k + 1);
    let mut k2: usize = k + 1;
    while k2 < n && token[k2] != 58
        invariant
            0 <= k + 1 <= k2 <= n == token@.len(),
            forall|j: int| k + 1 <= j < k2 ==> token@[j] != 58,
        decreases n - k2,
    {
        k2 = k2 + 1;
    }
    proof {
        assert forall|j: int| 0 <= j < k2 - (k + 1) implies rest[j] != 58 by {
            assert(rest[j] == token@[j + k + 1]);
        }
        if k2 < n {
            assert(rest[k2 - (k + 1)] == token@[k2 as int]);
        }
        lemma_colon_ix_unique(rest, k2 - (k + 1));
    }
    let mut ys: Vec<u8> = Vec::new();
    let mut j: usize = k + 1;
    while j < k2
        invariant
            k + 1 <= j <= k2 <= n == token@.len(),
            ys@ == token@.subrange(k + 1, j as int),
        decreases k2 - j,
    {
        ys.push(token[j]);
        proof {
            assert(ys@ =~= token@.subrange(k + 1, j + 1));
        }
        j = j + 1;
    }
    proof {
        assert(xs@ == token@.subrange(0, k as int));
        assert(ys@ =~= rest.subrange(0, colon_ix(rest)));
    }
    let x = parse_i64(xs.as_slice());
    let y = parse_i64(ys.as_slice());
    match (x, y) {
        (Some(x), Some(y)) => Some((x, y)),
        _ => None,
    }
}

/// The token with every leading quote removed.
pub open spec fn trim_front(s: Seq<u8>) -> Seq<u8>
    decreases s.len(),
{
    if s.len() > 0 && s[0] == 34 {
        trim_front(s.skip(1))
    } else {
        s
    }
}

/// The token with every trailing quote removed.
pub open spec fn trim_back(s: Seq<u8>) -> Seq<u8>
    decreases s.len(),
{
    if s.len() > 0 && s.last() == 34 {
        trim_back(s.drop_last())
    } else {
        s
    }
}

/// The token with leading and trailing quotes removed.
pub open spec fn trim_quotes(s: Seq<u8>) -> Seq<u8> {
    trim_back(trim_front(s))
}

/// Strip leading and trailing double quotes from a token.
fn strip_quotes(token: &[u8]) -> (r: Vec<u8>)
    ensures
        r@ == trim_quotes(token@),
{
    let n = token.len();
    proof {
        assert(token@.skip(0) =~= token@);
    }
    let mut lo: usize = 0;
    while lo < n && token[lo] == 34
        invariant
            0 <= lo <= n == token@.len(),
            trim_front(token@) == trim_front(token@.skip(lo as int)),
        decreases n - lo,
    {
        proof {
            assert(token@.skip(lo as int)[0] == token@[lo as int]);
            assert(token@.skip(lo as int).skip(1) =~= token@.skip(lo + 1));
        }
        lo = lo + 1;
    }
    let ghost t = token@.skip(lo as int);
    proof {
        if lo < n {
            assert(t[0] == token@[lo as int]);
        }
        assert(trim_front(token@) == t);
    }
    proof {
        assert(t.subrange(0, n - lo as int) =~= t);
    }
    let mut hi: usize = n;
    while hi > lo && token[hi - 1] == 34
        invariant
            lo <= hi <= n == token@.len(),
            t == token@.skip(lo as int),
            trim_back(t) == trim_back(t.subrange(0, hi - lo as int)),
        decreases hi,
    {
        proof {
            let cur = t.subrange(0, hi - lo as int);
            assert(cur.last() == token@[hi - 1]);
            assert(cur.drop_last() =~= t.subrange(0, hi - 1 - lo as int));
        }
        hi = hi - 1;
    }
    proof {
        let cur = t.subrange(0, hi - lo as int);
        if hi > lo {
            assert(cur.last() == token@[hi - 1]);
        }
        assert(trim_back(cur) == cur);
    }
    let mut out: Vec<u8> = Vec::new();
    let mut i: usize = lo;
    while i < hi
        invariant
            lo <= i <= hi <= n == token@.len(),
            out@ == token@.subrange(lo as int, i as int),
        decreases hi - i,
    {
        out.push(token[i]);
        proof {
            assert(out@ =~= token@.subrange(lo as int, i + 1));
        }
        i = i + 1;
    }
    proof {
        assert(out@ =~= t.subrange(0, hi - lo as int));
    }
    out
}

/// The name of a tile kind in the level format.
pub open spec fn spec_tile_name(t: Tile) -> Seq<u8> {
    match t {
        Tile::Square => seq![83u8, 113u8, 117u8, 97u8, 114u8, 101u8],
        Tile::WedgeUpLeft => seq![
            87u8, 101u8, 100u8, 103u8, 101u8, 85u8, 112u8, 76u8, 101u8, 102u8, 116u8,
        ],
        Tile::WedgeUpRight => seq![
            87u8, 101u8, 100u8, 103u8, 101u8, 85u8, 112u8, 82u8, 105u8, 103u8, 104u8, 116u8,
        ],
        Tile::WedgeDownLeft => seq![
            87u8, 101u8, 100u8, 103u8, 101u8, 68u8, 111u8, 119u8, 110u8, 76u8, 101u8, 102u8,
            116u8,
        ],
        Tile::WedgeDownRight => seq![
            87u8, 101u8, 100u8, 103u8, 101u8, 68u8, 111u8, 119u8, 110u8, 82u8, 105u8, 103u8,
            104u8, 116u8,
        ],
    }
}

/// The tile kind a (quote-trimmed) name denotes.
pub open spec fn spec_tile_of_name(s: Seq<u8>) -> Option<Tile> {
    if s == spec_tile_name(Tile::Square) {
        Some(Tile::Square)
    } else if s == spec_tile_name(Tile::WedgeUpLeft) {
        Some(Tile::WedgeUpLeft)
    } else if s == spec_tile_name(Tile::WedgeUpRight) {
        Some(Tile::WedgeUpRight)
    } else if s == spec_tile_name(Tile::WedgeDownLeft) {
        Some(Tile::WedgeDownLeft)
    } else if s == spec_tile_name(Tile::WedgeDownRight) {
        Some(Tile::WedgeDownRight)
    } else {
        None
    }
}

/// Exact byte-sequence comparison.
fn bytes_eq(a: &[u8], b: &[u8]) -> (r: bool)
    ensures
        r == (a@ == b@),
{
    if a.len() != b.len() {
        return false;
    }
    let n = a.len();
    let mut i: usize = 0;
    while i < n
        invariant
            n == a@.len() == b@.len(),
            0 <= i <= n,
            forall|j: int| 0 <= j < i ==> a@[j] == b@[j],
        decreases n - i,
    {
        if a[i] != b[i] {
            return false;
        }
        i = i + 1;
    }
    proof {
        assert(a@ =~= b@);
    }
    true
}

/// Append a tile kind's level-format name.
fn push_tile_name(out: &mut Vec<u8>, t: Tile)
    ensures
        final(out)@ == old(out)@ + spec_tile_name(t),
{
    let ghost base = out@;
    match t {
        Tile::Square => {
            out.push(83);
            out.push(113);
            out.push(117);
            out.push(97);
            out.push(114);
            out.push(101);
        }
        Tile::WedgeUpLeft => {
            out.push(87);
            out.push(101);
            out.push(100);
            out.push(103);
            out.push(101);
            out.push(85);
            out.push(112);
            out.push(76);
            out.push(101);
            out.push(102);
            out.push(116);
        }
        Tile::WedgeUpRight => {
            out.push(87);
            out.push(101);
            out.push(100);
            out.push(103);
            out.push(101);
            out.push(85);
            out.push(112);
            out.push(82);
            out.push(105);
            out.push(103);
            out.push(104);
            out.push(116);
        }
        Tile::WedgeDownLeft => {
            out.push(87);
            out.push(101);
            out.push(100);
            out.push(103);
            out.push(101);
            out.push(68);
            out.push(111);
            out.push(119);
            out.push(110);
            out.push(76);
            out.push(101);
            out.push(102);
            out.push(116);
        }
        Tile::WedgeDownRight => {
            out.push(87);
            out.push(101);
            out.push(100);
            out.push(103);
            out.push(101);
            out.push(68);
            out.push(111);
            out.push(119);
            out.push(110);
            out.push(82);
            out.push(105);
            out.push(103);
            out.push(104);
            out.push(116);
        }
    }
    proof {
        assert(out@ =~= base + spec_tile_name(t));
    }
}

/// Recognize a (quote-trimmed) tile name.
fn tile_from_name(name: &[u8]) -> (r: Option<Tile>)
    ensures
        r == spec_tile_of_name(name@),
{
    let mut buf: Vec<u8> = Vec::new();
    push_tile_name(&mut buf, Tile::Square);
    if bytes_eq(name, buf.as_slice()) {
        return Some(Tile::Square);
    }
    let mut buf: Vec<u8> = Vec::new();
    push_tile_name(&mut buf, Tile::WedgeUpLeft);
    if bytes_eq(name, buf.as_slice()) {
        return Some(Tile::WedgeUpLeft);
    }
    let mut buf: Vec<u8> = Vec::new();
    push_tile_name(&mut buf, Tile::WedgeUpRight);
    if bytes_eq(name, buf.as_slice()) {
        return Some(Tile::WedgeUpRight);
    }
    let mut buf: Vec<u8> = Vec::new();
    push_tile_name(&mut buf, Tile::WedgeDownLeft);
    if bytes_eq(name, buf.as_slice()) {
        return Some(Tile::WedgeDownLeft);
    }
    let mut buf: Vec<u8> = Vec::new();
    push_tile_name(&mut buf, Tile::WedgeDownRight);
    if bytes_eq(name, buf.as_slice()) {
        return Some(Tile::WedgeDownRight);
    }
    None
}


/// The directive word `PLAYER_START`.
pub open spec fn spec_ps_word() -> Seq<u8> {
    seq![80u8, 76u8, 65u8, 89u8, 69u8, 82u8, 95u8, 83u8, 84u8, 65u8, 82u8, 84u8]
}

/// The directive word `TILE`.
pub open spec fn spec_tile_word() -> Seq<u8> {
    seq![84u8, 73u8, 76u8, 69u8]
}

/// Append the directive word `PLAYER_START`.
fn push_ps_word(out: &mut Vec<u8>)
    ensures
        final(out)@ == old(out)@ + spec_ps_word(),
{
    let ghost base = out@;
    out.push(80);
    out.push(76);
    out.push(65);
    out.push(89);
    out.push(69);
    out.push(82);
    out.push(95);
    out.push(83);
    out.push(84);
    out.push(65);
    out.push(82);
    out.push(84);
    proof {
        assert(out@ =~= base + spec_ps_word());
    }
}

/// Append the directive word `TILE`.
fn push_tile_word(out: &mut Vec<u8>)
    ensures
        final(out)@ == old(out)@ + spec_tile_word(),
{
    let ghost base = out@;
    out.push(84);
    out.push(73);
    out.push(76);
    out.push(69);
    proof {
        assert(out@ =~= base + spec_tile_word());
    }
}

/// A coordinate the map accepts.
pub open spec fn in_grid(x: int, y: int) -> bool {
    -GRID_LIMIT <= x <= GRID_LIMIT && -GRID_LIMIT <= y <= GRID_LIMIT
}

/// The map a list of placements describes, inserted in order.
pub open spec fn tiles_model(ts: Seq<(Vec2, Tile)>) -> Map<Vec2, Tile>
    decreases ts.len(),
{
    if ts.len() == 0 {
        Map::empty()
    } else {
        tiles_model(ts.drop_last()).insert(ts.last().0, ts.last().1)
    }
}

proof fn lemma_tiles_model_push(ts: Seq<(Vec2, Tile)>, p: Vec2, t: Tile)
    ensures
        tiles_model(ts.push((p, t))) == tiles_model(ts).insert(p, t),
{
    assert(ts.push((p, t)).drop_last() =~= ts);
}

/// The placements a `TILE` line's coordinate tokens (from index `j` on)
/// add for kind `t`: each must be a well-formed, in-range coordinate, and
/// the number of placements never passes the map's capacity.
pub open spec fn spec_interp_coords(
    line: Seq<Seq<u8>>,
    j: int,
    t: Tile,
    start: Vec2,
    tiles: Seq<(Vec2, Tile)>,
) -> Option<(Vec2, Seq<(Vec2, Tile)>)>
    decreases line.len() - j,
{
    if j >= line.len() {
        Some((start, tiles))
    } else {
        match spec_parse_coord(line[j]) {
            Some((x, y)) => {
                if in_grid(x, y) && tiles.len() < TILE_COUNT_LIMIT {
                    spec_interp_coords(line, j + 1, t, start, tiles.push(
                        (Vec2 { x: x as i64, y: y as i64 }, t),
                    ))
                } else {
                    None
                }
            }
            None => None,
        }
    }
}

/// The effect of one line: empty lines are skipped, `PLAYER_START` needs
/// two in-range integers, `TILE` needs a known (quoted) kind name and
/// adds its coordinates, a `TILE` line without a name is skipped, and
/// any other first word is an error.
pub open spec fn spec_interp_line(
    line: Seq<Seq<u8>>,
    start: Vec2,
    tiles: Seq<(Vec2, Tile)>,
) -> Option<(Vec2, Seq<(Vec2, Tile)>)> {
    if line.len() == 0 {
        Some((start, tiles))
    } else if line[0] == spec_ps_word() {
        if line.len() >= 3 {
            match (spec_parse_int(line[1]), spec_parse_int(line[2])) {
                (Some(x), Some(y)) => {
                    if in_grid(x, y) {
                        Some((Vec2 { x: x as i64, y: y as i64 }, tiles))
                    } else {
                        None
                    }
                }
                _ => None,
            }
        } else {
            None
        }
    } else if line[0] == spec_tile_word() {
        if line.len() >= 2 {
            match spec_tile_of_name(trim_quotes(line[1])) {
                Some(t) => spec_interp_coords(line, 2, t, start, tiles),
                None => None,
            }
        } else {
            Some((start, tiles))
        }
    } else {
        None
    }
}

/// The lines from index `i` on, interpreted in order.
pub open spec fn spec_interp_from(
    lines: Seq<Seq<Seq<u8>>>,
    i: int,
    start: Vec2,
    tiles: Seq<(Vec2, Tile)>,
) -> Option<(Vec2, Seq<(Vec2, Tile)>)>
    decreases lines.len() - i,
{
    if i >= lines.len() {
        Some((start, tiles))
    } else {
        match spec_interp_line(lines[i], start, tiles) {
            Some((s, t)) => spec_interp_from(lines, i + 1, s, t),
            None => None,
        }
    }
}

/// The level a text describes: the final player start cell and the tile
/// placements in order, or nothing if any line is malformed.
pub open spec fn spec_parse_level(text: Seq<u8>) -> Option<(Vec2, Seq<(Vec2, Tile)>)> {
    spec_interp_from(spec_token_lines(text), 0, Vec2 { x: 0, y: 0 }, Seq::empty())
}

impl TileMap {
    /// Parse a level text into a tile map with the given tile side
    /// length. Returns the map exactly when every line is well formed;
    /// the resulting map holds the listed tiles with all seam normals
    /// suppressed per neighborhood, and the last `PLAYER_START` wins.
    pub fn from_str(text: &[u8], tile_size: i64) -> (r: Option<TileMap>)
        requires
            0 < tile_size <= TILE_SIZE_LIMIT,
        ensures
            match spec_parse_level(text@) {
                Some(parsed) => r is Some && {
                    let m = r->Some_0;
                    &&& m.wf()
                    &&& m.spec_tile_size() == tile_size
                    &&& m.spec_player_start() == parsed.0
                    &&& m.model() == tiles_model(parsed.1)
                },
                None => r is None,
            },
    {
        let lines = tokenize(text);
        let ghost slines = spec_token_lines(text@);
        let ghost target = spec_parse_level(text@);
        let mut map = TileMap::new(tile_size);
        let ghost mut tiles: Seq<(Vec2, Tile)> = Seq::empty();
        let mut added: usize = 0;
        proof {
            assert(tiles_model(tiles) =~= Map::<Vec2, Tile>::empty());
        }
        let n = lines.len();
        let mut li: usize = 0;
        while li < n
            invariant
                0 < tile_size <= TILE_SIZE_LIMIT,
                n == lines@.len(),
                0 <= li <= n,
                line_views(lines@) == slines,
                target == spec_parse_level(text@),
                map.wf(),
                map.spec_tile_size() == tile_size,
                map.model() == tiles_model(tiles),
                map.spec_entries().len() <= tiles.len() <= TILE_COUNT_LIMIT,
                added == tiles.len(),
                spec_interp_from(slines, li as int, map.spec_player_start(), tiles) == target,
            decreases n - li,
        {
            let ghost sline = slines[li as int];
            let ghost start0 = map.spec_player_start();
            let ghost tiles0 = tiles;
            proof {
                assert(sline == token_views(lines@[li as int]@));
            }
            let line_len = lines[li].len();
            if line_len > 0 {
                proof {
                    assert(sline[0] == lines@[li as int]@[0]@);
                }
                let mut ps: Vec<u8> = Vec::new();
                push_ps_word(&mut ps);
                proof {
                    assert(ps@ =~= spec_ps_word());
                }
                let mut tw: Vec<u8> = Vec::new();
                push_tile_word(&mut tw);
                proof {
                    assert(tw@ =~= spec_tile_word());
                }
                if bytes_eq(lines[li][0].as_slice(), ps.as_slice()) {
                    if line_len >= 3 {
                        proof {
                            assert(sline[1] == lines@[li as int]@[1]@);
                            assert(sline[2] == lines@[li as int]@[2]@);
                        }
                        let x = parse_i64(lines[li][1].as_slice());
                        let y = parse_i64(lines[li][2].as_slice());
                        match (x, y) {
                            (Some(x), Some(y)) => {
                                if -GRID_LIMIT <= x && x <= GRID_LIMIT && -GRID_LIMIT <= y
                                    && y <= GRID_LIMIT {
                                    map.set_player_start(Vec2 { x, y });
                                } else {
                                    proof {
                                        assert(spec_interp_line(sline, start0, tiles0) is None);
                                    }
                                    return None;
                                }
                            }
                            _ => {
                                proof {
                                    assert(spec_interp_line(sline, start0, tiles0) is None);
                                }
                                return None;
                            }
                        }
                    } else {
                        proof {
                            assert(spec_interp_line(sline, start0, tiles0) is None);
                        }
                        return None;
                    }
                } else if bytes_eq(lines[li][0].as_slice(), tw.as_slice()) {
                    if line_len >= 2 {
                        proof {
                            assert(sline[1] == lines@[li as int]@[1]@);
                        }
                        let name = strip_quotes(lines[li][1].as_slice());
                        match tile_from_name(name.as_slice()) {
                            Some(t) => {
                                let mut j: usize = 2;
                                while j < line_len
                                    invariant
                                        0 < tile_size <= TILE_SIZE_LIMIT,
                                        n == lines@.len(),
                                        0 <= li < n,
                                        2 <= j <= line_len,
                                        line_len == lines@[li as int]@.len(),
                                        line_views(lines@) == slines,
                                        sline == token_views(lines@[li as int]@),
                                        map.wf(),
                                        map.spec_tile_size() == tile_size,
                                        map.model() == tiles_model(tiles),
                                        map.spec_entries().len() <= tiles.len()
                                            <= TILE_COUNT_LIMIT,
                                        added == tiles.len(),
                                        map.spec_player_start() == start0,
                                        sline == slines[li as int],
                                        spec_interp_coords(sline, j as int, t, start0, tiles)
                                            == spec_interp_line(sline, start0, tiles0),
                                        spec_interp_from(slines, li as int, start0, tiles0)
                                            == target,
                                        target == spec_parse_level(text@),
                                    decreases line_len - j,
                                {
                                    proof {
                                        assert(sline[j as int] == lines@[li as int]@[j as int]@);
                                    }
                                    match parse_coord(lines[li][j].as_slice()) {
                                        Some((x, y)) => {
                                            if -GRID_LIMIT <= x && x <= GRID_LIMIT
                                                && -GRID_LIMIT <= y && y <= GRID_LIMIT
                                                && added < TILE_COUNT_LIMIT {
                                                let pos = Vec2 { x, y };
                                                map.add_tile(pos, t);
                                                proof {
                                                    lemma_tiles_model_push(tiles, pos, t);
                                                    tiles = tiles.push((pos, t));
                                                }
                                                added = added + 1;
                                            } else {
                                                proof {
                                                    assert(spec_interp_coords(
                                                        sline, j as int, t, start0, tiles,
                                                    ) is None);
                                                }
                                                return None;
                                            }
                                        }
                                        None => {
                                            proof {
                                                assert(spec_interp_coords(
                                                    sline, j as int, t, start0, tiles,
                                                ) is None);
                                            }
                                            return None;
                                        }
                                    }
                                    j = j + 1;
                                }
                            }
                            None => {
                                proof {
                                    assert(spec_interp_line(sline, start0, tiles0) is None);
                                }
                                return None;
                            }
                        }
                    }
                } else {
                    proof {
                        assert(spec_interp_line(sline, start0, tiles0) is None);
                    }
                    return None;
                }
            }
            proof {
                assert(spec_interp_line(sline, start0, tiles0)
                    == Some((map.spec_player_start(), tiles)));
            }
            li = li + 1;
        }
        proof {
            assert(target == Some((map.spec_player_start(), tiles)));
        }
        Some(map)
    }
}


/// The decimal digits of `n`.
pub open spec fn spec_digits(n: nat) -> Seq<u8>
    decreases n,
{
    if n < 10 {
        seq![(48 + n) as u8]
    } else {
        spec_digits(n / 10) + seq![(48 + n % 10) as u8]
    }
}

/// The decimal rendering of `v`: a minus sign for negative values, then
/// the digits.
pub open spec fn spec_render_int(v: int) -> Seq<u8> {
    if v < 0 {
        seq![45u8] + spec_digits((-v) as nat)
    } else {
        spec_digits(v as nat)
    }
}

/// Rendering a number and reading its digits back returns the number:
/// the two sides of the level format agree on integers.
pub proof fn lemma_digits_round_trip(n: nat)
    ensures
        all_digits(spec_digits(n)),
        digits_val(spec_digits(n)) == n,
    decreases n,
{
    if n < 10 {
        let w = spec_digits(n);
        assert(w == seq![(48 + n) as u8]);
        assert(w.len() == 1);
        assert(w.drop_last() =~= Seq::<u8>::empty());
        assert(digits_val(w.drop_last()) == 0);
        assert(w.last() == (48 + n) as u8);
        assert(digits_val(w) == 0 * 10 + ((48 + n) as u8 - 48));
    } else {
        lemma_digits_round_trip(n / 10);
        let d = spec_digits(n / 10);
        let w = spec_digits(n);
        assert(w == d + seq![(48 + n % 10) as u8]);
        assert(w.drop_last() =~= d);
        assert(w.last() == (48 + n % 10) as u8);
        assert forall|i: int| 0 <= i < w.len() implies is_digit(#[trigger] w[i]) by {
            if i < d.len() {
                assert(w[i] == d[i]);
            }
        }
        assert(digits_val(w) == digits_val(d) * 10 + n % 10);
        assert(n / 10 * 10 + n % 10 == n) by (nonlinear_arith);
    }
}

/// Append the decimal digits of `n`.
fn push_digits(out: &mut Vec<u8>, n: u64)
    ensures
        final(out)@ == old(out)@ + spec_digits(n as nat),
    decreases n,
{
    if n < 10 {
        out.push(48 + n as u8);
        proof {
            assert(out@ =~= old(out)@ + spec_digits(n as nat));
        }
    } else {
        push_digits(out, n / 10);
        out.push(48 + (n % 10) as u8);
        proof {
            assert(out@ =~= old(out)@ + spec_digits(n as nat));
        }
    }
}

/// Append the decimal rendering of `v`.
fn push_int(out: &mut Vec<u8>, v: i64)
    requires
        v > i64::MIN,
    ensures
        final(out)@ == old(out)@ + spec_render_int(v as int),
{
    if v < 0 {
        out.push(45);
        push_digits(out, (-v) as u64);
        proof {
            assert(out@ =~= old(out)@ + spec_render_int(v as int));
        }
    } else {
        push_digits(out, v as u64);
    }
}

/// The ` x:y` fragments of every entry of kind `k`, in entry order.
pub open spec fn spec_coords_bytes(entries: Seq<crate::tile_map::TileEntry>, k: Tile) -> Seq<u8>
    decreases entries.len(),
{
    if entries.len() == 0 {
        Seq::empty()
    } else {
        spec_coords_bytes(entries.drop_last(), k) + (if entries.last().kind == k {
            seq![32u8] + spec_render_int(entries.last().pos.x as int) + seq![58u8]
                + spec_render_int(entries.last().pos.y as int)
        } else {
            Seq::empty()
        })
    }
}

/// Some entry has kind `k`.
pub open spec fn has_kind(entries: Seq<crate::tile_map::TileEntry>, k: Tile) -> bool {
    exists|i: int| 0 <= i < entries.len() && (#[trigger] entries[i]).kind == k
}

/// The `TILE` line of kind `k`, on its own line, or nothing when no tile
/// of that kind is present.
pub open spec fn spec_kind_line(entries: Seq<crate::tile_map::TileEntry>, k: Tile) -> Seq<u8> {
    if has_kind(entries, k) {
        seq![10u8] + spec_tile_word() + seq![32u8, 34u8] + spec_tile_name(k) + seq![34u8]
            + spec_coords_bytes(entries, k)
    } else {
        Seq::empty()
    }
}

/// The rendered level: the player start directive, then one `TILE` line
/// per present kind, kinds in declaration order and cells in entry
/// order.
pub open spec fn spec_save(entries: Seq<crate::tile_map::TileEntry>, start: Vec2) -> Seq<u8> {
    spec_ps_word() + seq![32u8] + spec_render_int(start.x as int) + seq![32u8]
        + spec_render_int(start.y as int) + spec_kind_line(entries, Tile::Square)
        + spec_kind_line(entries, Tile::WedgeUpLeft)
        + spec_kind_line(entries, Tile::WedgeUpRight)
        + spec_kind_line(entries, Tile::WedgeDownLeft)
        + spec_kind_line(entries, Tile::WedgeDownRight)
}

/// Append the `TILE` line for kind `k`, if any tile of that kind exists.
fn push_kind_line(out: &mut Vec<u8>, map: &TileMap, k: Tile)
    requires
        map.wf(),
    ensures
        final(out)@ == old(out)@ + spec_kind_line(map.spec_entries(), k),
{
    let ghost entries = map.spec_entries();
    let n = map.tile_count();
    let mut present = false;
    let mut i: usize = 0;
    while i < n
        invariant
            map.wf(),
            entries == map.spec_entries(),
            n == entries.len(),
            0 <= i <= n,
            present ==> has_kind(entries, k),
            !present ==> forall|j: int| 0 <= j < i ==> (#[trigger] entries[j]).kind != k,
        decreases n - i,
    {
        if map.entry_kind_at(i) == k {
            present = true;
        }
        i = i + 1;
    }
    if !present {
        proof {
            assert(!has_kind(entries, k));
        }
        return;
    }
    out.push(10);
    push_tile_word(out);
    out.push(32);
    out.push(34);
    push_tile_name(out, k);
    out.push(34);
    let ghost head = old(out)@ + seq![10u8] + spec_tile_word() + seq![32u8, 34u8]
        + spec_tile_name(k) + seq![34u8];
    proof {
        assert(out@ =~= head);
        assert(out@ =~= head + spec_coords_bytes(entries.subrange(0, 0), k));
    }
    let mut i: usize = 0;
    while i < n
        invariant
            map.wf(),
            entries == map.spec_entries(),
            n == entries.len(),
            0 <= i <= n,
            out@ == head + spec_coords_bytes(entries.subrange(0, i as int), k),
        decreases n - i,
    {
        let ghost pre = entries.subrange(0, i as int);
        let ghost cur = entries.subrange(0, i + 1);
        proof {
            assert(cur.drop_last() =~= pre);
            assert(cur.last() == entries[i as int]);
        }
        if map.entry_kind_at(i) == k {
            let pos = map.entry_pos_at(i);
            out.push(32);
            push_int(out, pos.x);
            out.push(58);
            push_int(out, pos.y);
            proof {
                assert(out@ =~= head + spec_coords_bytes(cur, k));
            }
        } else {
            proof {
                assert(out@ =~= head + spec_coords_bytes(cur, k));
            }
        }
        i = i + 1;
    }
    proof {
        assert(entries.subrange(0, n as int) =~= entries);
        assert(has_kind(entries, k));
    }
}

impl TileMap {
    /// Render this map in the level text format: the player start
    /// directive, then one line per present tile kind listing its cells.
    pub fn save(&self) -> (r: Vec<u8>)
        requires
            self.wf(),
        ensures
            r@ == spec_save(self.spec_entries(), self.spec_player_start()),
    {
        let mut out: Vec<u8> = Vec::new();
        push_ps_word(&mut out);
        out.push(32);
        let start = self.get_player_start();
        push_int(&mut out, start.x);
        out.push(32);
        push_int(&mut out, start.y);
        push_kind_line(&mut out, self, Tile::Square);
        push_kind_line(&mut out, self, Tile::WedgeUpLeft);
        push_kind_line(&mut out, self, Tile::WedgeUpRight);
        push_kind_line(&mut out, self, Tile::WedgeDownLeft);
        push_kind_line(&mut out, self, Tile::WedgeDownRight);
        proof {
            assert(out@ =~= spec_save(self.spec_entries(), self.spec_player_start()));
        }
        out
    }
}


} // verus!
