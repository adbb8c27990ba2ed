//! The size formatter: raw counts, human-readable binary units, and explicit
//! `-B<unit|blocksize>` quantization, plus the padded output line.
use vstd::prelude::*;
use crate::decimal::{decimal, digit_char, render_u64};

verus! {

/// Number of letters on the unit ladder K, M, G, T, P, E, Z.
pub const NUM_UNITS: usize = 7;

/// Width that a rendered size is left-aligned in on an output line.
pub const SIZE_COLUMN: usize = 10;

/// Bytes in one unit of the ladder, 1024 to the power `i + 1`.
pub open spec fn unit_div(i: nat) -> nat {
    if i == 0 {
        1024
    } else if i == 1 {
        1048576
    } else if i == 2 {
        1073741824
    } else if i == 3 {
        1099511627776
    } else if i == 4 {
        1125899906842624
    } else if i == 5 {
        1152921504606846976
    } else {
        1180591620717411303424
    }
}

/// ASCII letter of unit `i` on the ladder.
pub open spec fn unit_letter(i: nat) -> u8 {
    if i == 0 {
        75u8
    } else if i == 1 {
        77u8
    } else if i == 2 {
        71u8
    } else if i == 3 {
        84u8
    } else if i == 4 {
        80u8
    } else if i == 5 {
        69u8
    } else {
        90u8
    }
}

/// The first unit from `i` on whose next step up exceeds `b`, or the largest.
pub open spec fn human_unit(b: nat, i: nat) -> nat
    decreases NUM_UNITS - i,
{
    if i + 1 >= NUM_UNITS || b < unit_div(i) * 1024 {
        i
    } else {
        human_unit(b, i + 1)
    }
}

/// `n / d` rounded to the nearest integer, ties to even.
pub open spec fn round_div(n: nat, d: nat) -> nat
    recommends
        d > 0,
{
    let q = n / d;
    let r = n % d;
    if 2 * r > d || (2 * r == d && q % 2 == 1) {
        q + 1
    } else {
        q
    }
}

/// `n / d` rounded up.
pub open spec fn ceil_div(n: nat, d: nat) -> nat
    recommends
        d > 0,
{
    if n % d == 0 {
        n / d
    } else {
        n / d + 1
    }
}

/// Human-readable rendering: `"{b}B"` below 1K, otherwise the value in the
/// chosen unit with one fractional digit, such as `"3.4M"`.
pub open spec fn human_size(b: nat) -> Seq<u8> {
    if b < 1024 {
        decimal(b).push(66u8)
    } else {
        let i = human_unit(b, 0);
        let tenths = round_div(b * 10, unit_div(i));
        decimal(tenths / 10).push(46u8).push(digit_char(tenths % 10)).push(unit_letter(i))
    }
}

/// A parsed `-B` argument.
#[derive(Clone, Copy, Debug, PartialEq, Eq, Structural)]
pub enum BlockSize {
    /// A unit letter of the ladder, by its index.
    Unit(usize),
    /// A block size in bytes.
    Count(u64),
}

impl BlockSize {
    pub open spec fn wf(self) -> bool {
        match self {
            BlockSize::Unit(i) => i < NUM_UNITS,
            BlockSize::Count(c) => c > 0,
        }
    }
}

/// How sizes are rendered.
#[derive(Clone, Copy, Debug, PartialEq, Eq, Structural)]
pub enum OutputMode {
    /// The integer verbatim.
    Raw,
    /// Binary-prefixed human units.
    Human,
    /// Quantized by an explicit block size.
    Block(BlockSize),
}

impl OutputMode {
    pub open spec fn wf(self) -> bool {
        match self {
            OutputMode::Block(bs) => bs.wf(),
            _ => true,
        }
    }
}

/// Blocks of `bs` needed for `n` bytes, rounded up.
pub open spec fn block_count(n: nat, bs: BlockSize) -> nat
    recommends
        bs.wf(),
{
    match bs {
        BlockSize::Unit(i) => ceil_div(n, unit_div(i as nat)),
        BlockSize::Count(c) => ceil_div(n, c as nat),
    }
}

/// Rendering of `n` bytes quantized by `bs`: the count with the unit letter,
/// or the bare count for a numeric block size.
pub open spec fn block_size_text(n: nat, bs: BlockSize) -> Seq<u8> {
    match bs {
        BlockSize::Unit(i) => decimal(block_count(n, bs)).push(unit_letter(i as nat)),
        BlockSize::Count(_) => decimal(block_count(n, bs)),
    }
}

/// Rendering of a size under an output mode.
pub open spec fn size_text(n: nat, mode: OutputMode) -> Seq<u8> {
    match mode {
        OutputMode::Raw => decimal(n),
        OutputMode::Human => human_size(n),
        OutputMode::Block(bs) => block_size_text(n, bs),
    }
}

/// `s` left-aligned in a column of `w` characters.
pub open spec fn pad_right(s: Seq<u8>, w: nat) -> Seq<u8> {
    if s.len() < w {
        s + Seq::new((w - s.len()) as nat, |_i: int| 32u8)
    } else {
        s
    }
}

/// One output line: the padded size, a space, the path, a newline.
pub open spec fn line_text(size: Seq<u8>, path: Seq<u8>) -> Seq<u8> {
    pad_right(size, SIZE_COLUMN as nat).push(32u8) + path.push(10u8)
}

/// An invalid `-B` argument.
#[derive(Clone, Copy, Debug, PartialEq, Eq, Structural)]
pub enum FormatError {
    InvalidBlockSize,
}

pub(crate) fn unit_divisor(i: usize) -> (r: u128)
    requires
        i < NUM_UNITS,
    ensures
        r == unit_div(i as nat),
{
    if i == 0 {
        1024
    } else if i == 1 {
        1048576
    } else if i == 2 {
        1073741824
    } else if i == 3 {
        1099511627776
    } else if i == 4 {
        1125899906842624
    } else if i == 5 {
        1152921504606846976
    } else {
        1180591620717411303424
    }
}

fn unit_byte(i: usize) -> (r: u8)
    requires
        i < NUM_UNITS,
    ensures
        r == unit_letter(i as nat),
{
    if i == 0 {
        75
    } else if i == 1 {
        77
    } else if i == 2 {
        71
    } else if i == 3 {
        84
    } else if i == 4 {
        80
    } else if i == 5 {
        69
    } else {
        90
    }
}

pub(crate) fn append_bytes(dst: &mut Vec<u8>, src: &[u8])
    ensures
        final(dst)@ == old(dst)@ + src@,
{
    let mut i: usize = 0;
    while i < src.len()
        invariant
            i <= src@.len(),
            dst@ == old(dst)@ + src@.subrange(0, i as int),
        decreases src@.len() - i,
    {
        dst.push(src[i]);
        i += 1;
        assert(src@.subrange(0, i as int) == src@.subrange(0, i - 1 as int).push(src@[i - 1]));
    }
    assert(src@.subrange(0, src@.len() as int) == src@);
}

/// Human-readable rendering of a byte count.
pub fn get_file_sizes(bytes: u64) -> (r: Vec<u8>)
    ensures
        r@ == human_size(bytes as nat),
{
    if bytes < 1024 {
        let mut r = render_u64(bytes);
        r.push(66u8);
        return r;
    }
    let b = bytes as u128;
    let mut i: usize = 0;
    while i + 1 < NUM_UNITS && b >= unit_divisor(i) * 1024
        invariant
            i < NUM_UNITS,
            human_unit(b as nat, i as nat) == human_unit(b as nat, 0),
            b < 0x1_0000_0000_0000_0000,
        decreases NUM_UNITS - i,
    {
        i += 1;
    }
    let d = unit_divisor(i);
    let n = b * 10;
    let q = n / d;
    let rem = n % d;
    let tenths: u128 = if 2 * rem > d || (2 * rem == d && q % 2 == 1) {
        q + 1
    } else {
        q
    };
    assert(tenths / 10 <= 0xffff_ffff_ffff_ffff) by (nonlinear_arith)
        requires
            tenths <= q + 1,
            q == n / d,
            d >= 1024,
            n <= 10 * 0xffff_ffff_ffff_ffff,
    ;
    let mut r = render_u64((tenths / 10) as u64);
    r.push(46u8);
    r.push((48 + tenths % 10) as u8);
    r.push(unit_byte(i));
    r
}

/// Index on the ladder of the unit whose letter is `c`.
pub open spec fn letter_unit(c: u8) -> Option<nat> {
    if c == 75 {
        Some(0)
    } else if c == 77 {
        Some(1)
    } else if c == 71 {
        Some(2)
    } else if c == 84 {
        Some(3)
    } else if c == 80 {
        Some(4)
    } else if c == 69 {
        Some(5)
    } else if c == 90 {
        Some(6)
    } else {
        None
    }
}

pub open spec fn is_digit(c: u8) -> bool {
    48 <= c <= 57
}

pub open spec fn all_digits(s: Seq<u8>) -> bool {
    forall|i: int| 0 <= i < s.len() ==> is_digit(#[trigger] s[i])
}

/// Value of a string of decimal digits.
pub open spec fn digits_value(s: Seq<u8>) -> nat
    decreases s.len(),
{
    if s.len() == 0 {
        0
    } else {
        digits_value(s.drop_last()) * 10 + (s.last() - 48) as nat
    }
}

/// The digits of a numeric `-B` argument: what follows `-B` and an optional `+`.
pub open spec fn block_digits(arg: Seq<u8>) -> Seq<u8> {
    if arg.len() > 2 && arg[2] == 43 {
        arg.skip(3)
    } else {
        arg.skip(2)
    }
}

/// Meaning of a `-B<spec>` argument: exactly `-B` and a unit letter, or two
/// leading bytes and a positive decimal that fits a signed 64-bit integer.
/// Anything else, a text shorter than two bytes included, is invalid.
pub open spec fn block_size_of(arg: Seq<u8>) -> Result<BlockSize, FormatError> {
    if arg.len() < 2 {
        Err(FormatError::InvalidBlockSize)
    } else if arg.len() == 3 && arg[0] == 45 && arg[1] == 66 && letter_unit(arg[2]) is Some {
        Ok(BlockSize::Unit(letter_unit(arg[2]).unwrap() as usize))
    } else {
        let d = block_digits(arg);
        if d.len() > 0 && all_digits(d) && 0 < digits_value(d) <= 0x7fff_ffff_ffff_ffff {
            Ok(BlockSize::Count(digits_value(d) as u64))
        } else {
            Err(FormatError::InvalidBlockSize)
        }
    }
}

proof fn lemma_digits_monotone(s: Seq<u8>, j: int)
    requires
        0 <= j <= s.len(),
        all_digits(s),
    ensures
        digits_value(s.subrange(0, j)) <= digits_value(s),
    decreases s.len(),
{
    if j < s.len() {
        let t = s.drop_last();
        assert(t.subrange(0, j) == s.subrange(0, j));
        lemma_digits_monotone(t, j);
    } else {
        assert(s.subrange(0, j) == s);
    }
}

pub(crate) fn letter_to_unit(c: u8) -> (r: Option<usize>)
    ensures
        r is Some <==> letter_unit(c) is Some,
        r is Some ==> r.unwrap() == letter_unit(c).unwrap() && r.unwrap() < NUM_UNITS,
{
    if c == 75 {
        Some(0)
    } else if c == 77 {
        Some(1)
    } else if c == 71 {
        Some(2)
    } else if c == 84 {
        Some(3)
    } else if c == 80 {
        Some(4)
    } else if c == 69 {
        Some(5)
    } else if c == 90 {
        Some(6)
    } else {
        None
    }
}

/// Parses a `-B<spec>` argument, whole, as given on the command line.
pub fn parse_block_size(arg: &[u8]) -> (r: Result<BlockSize, FormatError>)
    ensures
        r == block_size_of(arg@),
        r is Ok ==> r.unwrap().wf(),
{
    if arg.len() < 2 {
        return Err(FormatError::InvalidBlockSize);
    }
    if arg.len() == 3 && arg[0] == 45u8 && arg[1] == 66u8 {
        if let Some(i) = letter_to_unit(arg[2]) {
            return Ok(BlockSize::Unit(i));
        }
    }
    let mut start: usize = 2;
    if arg.len() > 2 && arg[2] == 43u8 {
        start = 3;
    }
    let ghost d = block_digits(arg@);
    assert(d == arg@.subrange(start as int, arg@.len() as int));
    if start >= arg.len() {
        return Err(FormatError::InvalidBlockSize);
    }
    let mut value: u64 = 0;
    let mut k: usize = start;
    while k < arg.len()
        invariant
            start <= k <= arg@.len(),
            d == arg@.subrange(start as int, arg@.len() as int),
            d == block_digits(arg@),
            !(arg@.len() == 3 && arg@[0] == 45 && arg@[1] == 66 && letter_unit(arg@[2]) is Some),
            value == digits_value(d.subrange(0, k - start)),
            all_digits(d.subrange(0, k - start)),
            value <= 0x7fff_ffff_ffff_ffff,
        decreases arg@.len() - k,
    {
        let c = arg[k];
        if c < 48u8 || c > 57u8 {
            assert(!is_digit(d[k - start]));
            return Err(FormatError::InvalidBlockSize);
        }
        let ghost next = d.subrange(0, k + 1 - start);
        assert(next.drop_last() == d.subrange(0, k - start));
        assert(all_digits(next)) by {
            assert forall|i: int| 0 <= i < next.len() implies is_digit(#[trigger] next[i]) by {
                if i < next.len() - 1 {
                    assert(next[i] == d.subrange(0, k - start)[i]);
                }
            }
        }
        if value > (0x7fff_ffff_ffff_ffff - (c - 48u8) as u64) / 10 {
            proof {
                if all_digits(d) {
                    lemma_digits_monotone(d, k + 1 - start);
                }
            }
            return Err(FormatError::InvalidBlockSize);
        }
        value = value * 10 + (c - 48u8) as u64;
        k += 1;
    }
    assert(d.subrange(0, k - start) == d);
    if value == 0 {
        return Err(FormatError::InvalidBlockSize);
    }
    Ok(BlockSize::Count(value))
}

fn ceil_div_u64(n: u64, d: u64) -> (r: u64)
    requires
        d > 0,
    ensures
        r == ceil_div(n as nat, d as nat),
{
    let q = n / d;
    if n % d == 0 {
        q
    } else {
        assert(d != 1 && n != 0) by (nonlinear_arith)
            requires
                n % d != 0,
                d > 0,
        ;
        assert(q < n) by (nonlinear_arith)
            requires
                q == n / d,
                d > 1,
                n > 0,
        ;
        q + 1
    }
}

/// Number of blocks of `bs` that `size` bytes take, rounded up.
pub fn block_count_of(size: u64, bs: BlockSize) -> (r: u64)
    requires
        bs.wf(),
    ensures
        r == block_count(size as nat, bs),
{
    match bs {
        BlockSize::Unit(i) => {
            let d = unit_divisor(i);
            let n = size as u128;
            let q = n / d;
            let c: u128 = if n % d == 0 {
                q
            } else {
                q + 1
            };
            assert(q <= n) by (nonlinear_arith)
                requires
                    q == n / d,
                    d > 0,
            ;
            assert(c <= 0xffff_ffff_ffff_ffff) by {
                assert(d >= 1024);
                assert(q * d <= n) by (nonlinear_arith)
                    requires
                        q == n / d,
                        d > 0,
                ;
                assert(q * 1024 <= q * d) by (nonlinear_arith)
                    requires
                        d >= 1024,
                ;
            }
            c as u64
        },
        BlockSize::Count(c) => ceil_div_u64(size, c),
    }
}

/// Renders `size` bytes quantized by `bs`.
pub fn format_block_size(size: u64, bs: BlockSize) -> (r: Vec<u8>)
    requires
        bs.wf(),
    ensures
        r@ == block_size_text(size as nat, bs),
{
    let n = block_count_of(size, bs);
    let mut r = render_u64(n);
    if let BlockSize::Unit(i) = bs {
        r.push(unit_byte(i));
    }
    r
}

/// Renders `size` under a `-B<spec>` argument, or fails when the argument
/// names neither a unit letter nor a block size.
pub fn format_size(size: u64, arg: &[u8]) -> (r: Result<Vec<u8>, FormatError>)
    ensures
        match block_size_of(arg@) {
            Ok(bs) => r is Ok && r.unwrap()@ == block_size_text(size as nat, bs),
            Err(e) => r == Err::<Vec<u8>, FormatError>(e),
        },
{
    match parse_block_size(arg) {
        Ok(bs) => Ok(format_block_size(size, bs)),
        Err(e) => Err(e),
    }
}

/// Renders a size under an output mode.
pub fn format_with(size: u64, mode: OutputMode) -> (r: Vec<u8>)
    requires
        mode.wf(),
    ensures
        r@ == size_text(size as nat, mode),
{
    match mode {
        OutputMode::Raw => render_u64(size),
        OutputMode::Human => get_file_sizes(size),
        OutputMode::Block(bs) => format_block_size(size, bs),
    }
}

/// One output line for `size` at `path`: the rendered size left-aligned in
/// its column, a space, the path and a newline.
pub fn render_line(size: u64, path: &[u8], mode: OutputMode) -> (r: Vec<u8>)
    requires
        mode.wf(),
    ensures
        r@ == line_text(size_text(size as nat, mode), path@),
{
    let mut r = format_with(size, mode);
    let ghost text = r@;
    while r.len() < SIZE_COLUMN
        invariant
            text.len() <= r@.len() <= SIZE_COLUMN || r@ == text,
            r@.len() <= SIZE_COLUMN ==> r@ == text + Seq::new((r@.len() - text.len()) as nat, |_i: int| 32u8),
            r@.len() > SIZE_COLUMN ==> r@ == text,
        decreases SIZE_COLUMN - r@.len(),
    {
        r.push(32u8);
        assert(r@ == text + Seq::new((r@.len() - text.len()) as nat, |_i: int| 32u8));
    }
    r.push(32u8);
    append_bytes(&mut r, path);
    r.push(10u8);
    assert(r@ == line_text(text, path@));
    r
}

} // verus!
