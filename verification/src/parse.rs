//! Parsing of the world file format: a decimal width line, a decimal
//! height line, then exactly width times height whitespace-separated cell
//! tokens in row-major order (`#` rock, `.` empty, `+` red anthill, `-`
//! black anthill, or a decimal food count).
//!
//! The grammar is stated as spec functions over the raw bytes, and the
//! executable parser is proved to accept exactly the well-formed inputs
//! and to build exactly the described world.

use vstd::prelude::*;
use crate::ant::AntColor;
use crate::util::BitField8;
use crate::world::{Cell, World};

verus! {

/// Whether `b` is ASCII whitespace, as both line trimming and token
/// splitting understand it.
pub open spec fn is_ws(b: u8) -> bool {
    b == 32 || b == 9 || b == 10 || b == 11 || b == 12 || b == 13
}

/// Whether `b` is an ASCII decimal digit.
pub open spec fn is_digit(b: u8) -> bool {
    48 <= b <= 57
}

/// The index of the first newline at or after `from`, or the length.
pub open spec fn line_end(s: Seq<u8>, from: int) -> int
    decreases s.len() - from,
{
    if from < 0 {
        line_end(s, 0)
    } else if from >= s.len() {
        s.len() as int
    } else if s[from] == 10 {
        from
    } else {
        line_end(s, from + 1)
    }
}

/// The index of the first non-whitespace byte in `[from, end)`, or `end`.
pub open spec fn skip_ws_to(s: Seq<u8>, from: int, end: int) -> int
    decreases end - from,
{
    if from >= end {
        end
    } else if 0 <= from < s.len() && is_ws(s[from]) {
        skip_ws_to(s, from + 1, end)
    } else {
        from
    }
}

/// The end of `[start, end)` with trailing whitespace removed.
pub open spec fn trim_last(s: Seq<u8>, start: int, end: int) -> int
    decreases end - start,
{
    if end <= start {
        start
    } else if 0 <= end - 1 < s.len() && is_ws(s[end - 1]) {
        trim_last(s, start, end - 1)
    } else {
        end
    }
}

/// Whether every byte of `[from, to)` is a decimal digit.
pub open spec fn all_digits(s: Seq<u8>, from: int, to: int) -> bool {
    forall|i: int| from <= i < to ==> is_digit(#[trigger] s[i])
}

/// The decimal value of the digits `[from, to)`.
pub open spec fn dec_val(s: Seq<u8>, from: int, to: int) -> int
    decreases to - from,
{
    if to <= from {
        0
    } else {
        dec_val(s, from, to - 1) * 10 + (s[to - 1] - 48)
    }
}

/// The decimal number written (with optional leading `+` and surrounding
/// whitespace) on the line `[start, end)`, or nothing when the line is not
/// a number.
pub open spec fn parse_dim(s: Seq<u8>, start: int, end: int) -> Option<int> {
    let a = skip_ws_to(s, start, end);
    let b = trim_last(s, a, end);
    let a2 = if a < b && s[a] == 43 {
        a + 1
    } else {
        a
    };
    if a2 < b && all_digits(s, a2, b) {
        Some(dec_val(s, a2, b))
    } else {
        None
    }
}

/// The index of the first whitespace byte at or after `from`, or the
/// length: the end of the token starting at `from`.
pub open spec fn token_end(s: Seq<u8>, from: int) -> int
    decreases s.len() - from,
{
    if from < 0 {
        token_end(s, 0)
    } else if from >= s.len() {
        s.len() as int
    } else if is_ws(s[from]) {
        from
    } else {
        token_end(s, from + 1)
    }
}

/// The token end lies between `from` and the length, and strictly after
/// `from` when a token starts there.
pub proof fn lemma_token_end_bounds(s: Seq<u8>, from: int)
    requires
        0 <= from <= s.len(),
    ensures
        from <= token_end(s, from) <= s.len(),
        from < s.len() && !is_ws(s[from]) ==> token_end(s, from) > from,
    decreases s.len() - from,
{
    if from < s.len() && !is_ws(s[from]) {
        lemma_token_end_bounds(s, from + 1);
    }
}

/// The whitespace-separated tokens of `s` from position `p` on.
pub open spec fn tokens_from(s: Seq<u8>, p: int) -> Seq<Seq<u8>>
    decreases s.len() - p when 0 <= p
    via tokens_from_decreases
{
    if p >= s.len() {
        Seq::empty()
    } else if is_ws(s[p]) {
        tokens_from(s, p + 1)
    } else {
        seq![s.subrange(p, token_end(s, p))] + tokens_from(s, token_end(s, p))
    }
}

#[via_fn]
proof fn tokens_from_decreases(s: Seq<u8>, p: int) {
    if 0 <= p < s.len() && !is_ws(s[p]) {
        lemma_token_end_bounds(s, p);
    }
}

/// The cell a single token describes, or nothing when the token is
/// malformed: `#` rock, `.` empty ground, `+` a red anthill, `-` a black
/// anthill, and a decimal count (optional leading `+`) food on open
/// ground.  Food counts above the 16-bit range are rejected.
pub open spec fn cell_of_token(t: Seq<u8>) -> Option<Cell> {
    let blank = Cell {
        ant: None,
        anthill: None,
        is_rocky: false,
        food: 0u16,
        markers_red: BitField8 { bits: 0u8 },
        markers_black: BitField8 { bits: 0u8 },
    };
    if t.len() == 1 && t[0] == 35 {
        Some(Cell { is_rocky: true, ..blank })
    } else if t.len() == 1 && t[0] == 46 {
        Some(blank)
    } else if t.len() == 1 && t[0] == 43 {
        Some(Cell { anthill: Some(AntColor::Red), ..blank })
    } else if t.len() == 1 && t[0] == 45 {
        Some(Cell { anthill: Some(AntColor::Black), ..blank })
    } else {
        let a = if t.len() > 0 && t[0] == 43 {
            1int
        } else {
            0int
        };
        if a < t.len() && all_digits(t, a, t.len() as int)
            && dec_val(t, a, t.len() as int) <= 0xFFFF {
            Some(Cell { food: dec_val(t, a, t.len() as int) as u16, ..blank })
        } else {
            None
        }
    }
}

/// What a well-formed world file describes: its two dimensions, both at
/// most 65535, and its cells, exactly width times height of them, each
/// from a well-formed token.
pub open spec fn parse_spec(s: Seq<u8>) -> Option<(int, int, Seq<Cell>)> {
    let e1 = line_end(s, 0);
    if s.len() == 0 || e1 >= s.len() {
        None
    } else {
        let e2 = line_end(s, e1 + 1);
        match (parse_dim(s, 0, e1), parse_dim(s, e1 + 1, e2)) {
            (Some(w), Some(h)) => {
                if w <= 0xFFFF && h <= 0xFFFF {
                    let toks = tokens_from(s, e2);
                    if toks.len() == w * h
                        && (forall|j: int| 0 <= j < toks.len()
                            ==> cell_of_token(#[trigger] toks[j]) is Some) {
                        Some((w, h, toks.map_values(|t: Seq<u8>| cell_of_token(t).unwrap())))
                    } else {
                        None
                    }
                } else {
                    None
                }
            },
            _ => None,
        }
    }
}

/// A parsed cell holds no ant, clean markers, and nothing on rock.
pub proof fn lemma_cell_of_token_form(t: Seq<u8>)
    ensures
        cell_of_token(t) matches Some(c) ==> {
            &&& c.ant is None
            &&& c.markers_red.bits == 0
            &&& c.markers_black.bits == 0
            &&& (c.is_rocky ==> c.food == 0 && c.anthill is None)
            &&& (c.anthill is Some ==> c.food == 0)
        },
{
}

/// Whether `b` is ASCII whitespace.
fn is_ws_byte(b: u8) -> (r: bool)
    ensures
        r == is_ws(b),
{
    b == 32 || b == 9 || b == 10 || b == 11 || b == 12 || b == 13
}

/// The index of the first newline at or after `from`, or the length.
fn find_line_end(s: &[u8], from: usize) -> (r: usize)
    requires
        from <= s@.len(),
    ensures
        r == line_end(s@, from as int),
        from <= r <= s@.len(),
{
    let n = s.len();
    let mut i = from;
    while i < n && s[i] != 10
        invariant
            from <= i <= n,
            n == s@.len(),
            line_end(s@, from as int) == line_end(s@, i as int),
        decreases n - i,
    {
        i = i + 1;
    }
    i
}

/// Parse the decimal number on the line `[start, end)`, bounded by 65535.
#[verifier::loop_isolation(false)]
fn parse_dim_slice(s: &[u8], start: usize, end: usize) -> (r: Option<u16>)
    requires
        start <= end <= s@.len(),
    ensures
        match r {
            Some(v) => parse_dim(s@, start as int, end as int) == Some(v as int),
            None => match parse_dim(s@, start as int, end as int) {
                Some(d) => d > 0xFFFF,
                None => true,
            },
        },
{
    let n = s.len();
    // Skip leading whitespace.
    let mut a = start;
    while a < end && is_ws_byte(s[a])
        invariant
            start <= a <= end,
            end <= n,
            n == s@.len(),
            skip_ws_to(s@, start as int, end as int) == skip_ws_to(s@, a as int, end as int),
        decreases end - a,
    {
        a = a + 1;
    }
    proof {
        assert(skip_ws_to(s@, start as int, end as int) == a as int);
    }
    // Trim trailing whitespace.
    let mut b = end;
    while b > a && is_ws_byte(s[b - 1])
        invariant
            a <= b <= end,
            end <= n,
            n == s@.len(),
            trim_last(s@, a as int, end as int) == trim_last(s@, a as int, b as int),
        decreases b,
    {
        b = b - 1;
    }
    proof {
        assert(trim_last(s@, a as int, end as int) == b as int);
    }
    // Optional leading plus sign.
    let a2 = if a < b && s[a] == 43 {
        a + 1
    } else {
        a
    };
    if a2 >= b {
        return None;
    }
    // Digits, accumulated with saturation above the 16-bit range.
    let mut val: u32 = 0;
    let mut i = a2;
    while i < b
        invariant
            a2 <= i <= b,
            b <= n,
            n == s@.len(),
            all_digits(s@, a2 as int, i as int),
            val <= 0x1_0000,
            if dec_val(s@, a2 as int, i as int) <= 0xFFFF {
                val == dec_val(s@, a2 as int, i as int)
            } else {
                val == 0x1_0000
            },
        decreases b - i,
    {
        let d = s[i];
        if d < 48 || d > 57 {
            proof {
                assert(!is_digit(s@[i as int]));
                assert(!all_digits(s@, a2 as int, b as int));
            }
            return None;
        }
        if val > 0xFFFF {
            val = 0x1_0000;
        } else {
            val = val * 10 + ((d - 48) as u32);
            if val > 0xFFFF {
                val = 0x1_0000;
            }
        }
        proof {
            assert(dec_val(s@, a2 as int, i as int + 1)
                == dec_val(s@, a2 as int, i as int) * 10 + (s@[i as int] - 48));
        }
        i = i + 1;
    }
    if val <= 0xFFFF {
        Some(val as u16)
    } else {
        None
    }
}

/// The end of the token starting at `from`.
fn find_token_end(s: &[u8], from: usize) -> (r: usize)
    requires
        from <= s@.len(),
    ensures
        r == token_end(s@, from as int),
        from <= r <= s@.len(),
{
    let n = s.len();
    let mut i = from;
    while i < n && !is_ws_byte(s[i])
        invariant
            from <= i <= n,
            n == s@.len(),
            token_end(s@, from as int) == token_end(s@, i as int),
        decreases n - i,
    {
        i = i + 1;
    }
    i
}

/// The first position at or after `from` that starts a token, or the
/// length; the tokens from there are the tokens from `from`.
fn skip_ws_pos(s: &[u8], from: usize) -> (r: usize)
    requires
        from <= s@.len(),
    ensures
        from <= r <= s@.len(),
        tokens_from(s@, from as int) == tokens_from(s@, r as int),
        r == s@.len() || !is_ws(s@[r as int]),
{
    let n = s.len();
    let mut i = from;
    while i < n && is_ws_byte(s[i])
        invariant
            from <= i <= n,
            n == s@.len(),
            tokens_from(s@, from as int) == tokens_from(s@, i as int),
        decreases n - i,
    {
        i = i + 1;
    }
    i
}

/// Parse the cell token `[start, end)`.
#[verifier::loop_isolation(false)]
fn parse_cell_slice(s: &[u8], start: usize, end: usize) -> (r: Option<Cell>)
    requires
        start <= end <= s@.len(),
    ensures
        r == cell_of_token(s@.subrange(start as int, end as int)),
{
    let ghost t = s@.subrange(start as int, end as int);
    let blank = Cell {
        ant: None,
        anthill: None,
        is_rocky: false,
        food: 0u16,
        markers_red: BitField8 { bits: 0 },
        markers_black: BitField8 { bits: 0 },
    };
    let len = end - start;
    if len == 1 {
        let b = s[start];
        if b == 35 {
            return Some(Cell { is_rocky: true, ..blank });
        }
        if b == 46 {
            return Some(blank);
        }
        if b == 43 {
            return Some(Cell { anthill: Some(AntColor::Red), ..blank });
        }
        if b == 45 {
            return Some(Cell { anthill: Some(AntColor::Black), ..blank });
        }
    }
    // A decimal food count, with optional leading plus sign.
    let a = if len > 0 && s[start] == 43 {
        start + 1
    } else {
        start
    };
    if a >= end {
        return None;
    }
    let mut val: u32 = 0;
    let mut i = a;
    while i < end
        invariant
            a <= i <= end,
            end <= s@.len(),
            start <= a,
            all_digits(s@, a as int, i as int),
            val <= 0x1_0000,
            if dec_val(s@, a as int, i as int) <= 0xFFFF {
                val == dec_val(s@, a as int, i as int)
            } else {
                val == 0x1_0000
            },
        decreases end - i,
    {
        let d = s[i];
        if d < 48 || d > 57 {
            proof {
                assert(t[i - start] == s@[i as int]);
                assert(!is_digit(t[i - start]));
            }
            return None;
        }
        if val > 0xFFFF {
            val = 0x1_0000;
        } else {
            val = val * 10 + ((d - 48) as u32);
            if val > 0xFFFF {
                val = 0x1_0000;
            }
        }
        proof {
            assert(dec_val(s@, a as int, i as int + 1)
                == dec_val(s@, a as int, i as int) * 10 + (s@[i as int] - 48));
        }
        i = i + 1;
    }
    proof {
        // The token's own digits coincide with the slice's.
        assert forall|k: int| (a - start) <= k < t.len() implies
            #[trigger] t[k] == s@[k + start] by {}
        lemma_dec_val_shift(s@, t, a as int, end as int, start as int);
    }
    if val <= 0xFFFF {
        Some(Cell { food: val as u16, ..blank })
    } else {
        None
    }
}

/// Digit runs read the same value inside a subrange as in the whole
/// sequence: `t` is `s` shifted left by `off`.
proof fn lemma_dec_val_shift(s: Seq<u8>, t: Seq<u8>, from: int, to: int, off: int)
    requires
        0 <= off <= from <= to,
        to - off <= t.len(),
        forall|k: int| 0 <= k < t.len() ==> #[trigger] t[k] == s[k + off],
        to <= s.len(),
    ensures
        dec_val(t, from - off, to - off) == dec_val(s, from, to),
        all_digits(t, from - off, to - off) == all_digits(s, from, to),
    decreases to - from,
{
    if to > from {
        lemma_dec_val_shift(s, t, from, to - 1, off);
    }
    assert(all_digits(t, from - off, to - off) == all_digits(s, from, to)) by {
        if all_digits(t, from - off, to - off) {
            assert forall|i: int| from <= i < to implies is_digit(#[trigger] s[i]) by {
                assert(t[i - off] == s[i]);
            }
        }
        if all_digits(s, from, to) {
            assert forall|i: int| from - off <= i < to - off implies is_digit(#[trigger] t[i]) by {
                assert(t[i] == s[i + off]);
            }
        }
    }
}

impl World {
    /// Parse a world description: a decimal width line, a decimal height
    /// line, then exactly width times height whitespace-separated cell
    /// tokens.  Returns the world, or nothing when the input is not a
    /// well-formed description.
    #[verifier::loop_isolation(false)]
    pub fn parse(input: &[u8]) -> (r: Option<World>)
        ensures
            r is Some <==> parse_spec(input@) is Some,
            r matches Some(w) ==> {
                &&& parse_spec(input@) matches Some(t)
                    && w.width == t.0 && w.height == t.1 && w.cells@ == t.2
                &&& w.red_anthill@.len() == 0
                &&& w.black_anthill@.len() == 0
                &&& w.parsed_form()
            },
    {
        let n = input.len();
        if n == 0 {
            return None;
        }
        let e1 = find_line_end(input, 0);
        if e1 >= n {
            return None;
        }
        let width = match parse_dim_slice(input, 0, e1) {
            Some(v) => v,
            None => {
                return None;
            },
        };
        let e2 = find_line_end(input, e1 + 1);
        let height = match parse_dim_slice(input, e1 + 1, e2) {
            Some(v) => v,
            None => {
                return None;
            },
        };

        let ghost toks = tokens_from(input@, e2 as int);
        let mut cells: Vec<Cell> = Vec::new();
        let mut p = skip_ws_pos(input, e2);
        while p < n
            invariant
                e2 <= p <= n,
                cells@.len() <= toks.len(),
                tokens_from(input@, p as int) =~= toks.skip(cells@.len() as int),
                p == n || !is_ws(input@[p as int]),
                forall|j: int| 0 <= j < cells@.len()
                    ==> cell_of_token(toks[j]) == Some(#[trigger] cells@[j]),
            decreases n - p,
        {
            let ghost k = cells@.len() as int;
            let te = find_token_end(input, p);
            proof {
                lemma_token_end_bounds(input@, p as int);
                assert(tokens_from(input@, p as int)
                    == seq![input@.subrange(p as int, te as int)]
                        + tokens_from(input@, te as int));
                assert(toks.skip(k)[0] == input@.subrange(p as int, te as int));
                assert(toks[k] == input@.subrange(p as int, te as int));
            }
            let cell = match parse_cell_slice(input, p, te) {
                Some(c) => c,
                None => {
                    proof {
                        assert(cell_of_token(toks[k]) is None);
                        assert(k < toks.len());
                        assert(parse_spec(input@) is None);
                    }
                    return None;
                },
            };
            cells.push(cell);
            proof {
                assert((seq![input@.subrange(p as int, te as int)]
                    + tokens_from(input@, te as int)).skip(1)
                    =~= tokens_from(input@, te as int));
                assert(toks.skip(k).skip(1) =~= toks.skip(k + 1));
                assert(tokens_from(input@, te as int) =~= toks.skip(k + 1));
            }
            p = skip_ws_pos(input, te);
        }
        proof {
            assert(tokens_from(input@, p as int) =~= Seq::<Seq<u8>>::empty());
            assert(toks.skip(cells@.len() as int).len() == 0);
            assert(cells@.len() == toks.len());
        }

        proof {
            assert((width as int) * (height as int) <= 0xFFFF * 0xFFFF) by (nonlinear_arith)
                requires width <= 0xFFFF && height <= 0xFFFF;
        }
        let expected = (width as usize) * (height as usize);
        if cells.len() != expected {
            return None;
        }

        let world = World {
            cells,
            width: width as usize,
            height: height as usize,
            red_anthill: Vec::new(),
            black_anthill: Vec::new(),
        };
        proof {
            assert forall|j: int| 0 <= j < toks.len()
                implies cell_of_token(#[trigger] toks[j]) is Some by {
                assert(cell_of_token(toks[j]) == Some(world.cells@[j]));
            }
            assert(parse_spec(input@) is Some);
            let t = parse_spec(input@).unwrap();
            assert(world.cells@ =~= t.2);
            assert forall|j: int| 0 <= j < world.cells@.len() implies {
                let c = #[trigger] world.cells@[j];
                c.ant is None
                    && c.markers_red.bits == 0
                    && c.markers_black.bits == 0
                    && (c.is_rocky ==> c.food == 0 && c.anthill is None)
                    && (c.anthill is Some ==> c.food == 0)
            } by {
                lemma_cell_of_token_form(toks[j]);
            }
        }
        Some(world)
    }
}

} // verus!
