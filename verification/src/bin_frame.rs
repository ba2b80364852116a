//! Finding the extent of a binary Candid (`DIDL`) frame.
//!
//! A frame is the magic `DIDL`, a type table, the list of argument types and
//! one value per argument.  [`frame_size`] walks a frame without decoding it,
//! so that several frames written back to back can be told apart.
use vstd::prelude::*;
use crate::text::{decimal, signed_decimal, push_decimal, push_signed_decimal};
use vstd::arithmetic::div_mod::{lemma_fundamental_div_mod, lemma_mod_multiples_vanish, lemma_small_mod};

verus! {

/// Why a byte string is not a complete, well-formed `DIDL` frame.
#[derive(Debug, Clone, Copy, PartialEq, Eq, Structural)]
pub enum FrameError {
    /// The data does not start with `DIDL`.
    MissingMagic,
    /// The data ends in the middle of the frame.
    UnexpectedEnd,
    /// An unsigned LEB128 number runs over ten bytes.
    LebOverflow,
    /// A signed LEB128 number runs over ten bytes.
    SlebOverflow,
    /// The type table holds an opcode that is not a type constructor.
    UnexpectedOpcode(i64),
    /// Values are nested more than a thousand levels deep.
    DepthLimit,
    /// A type reference points past the end of the type table (index, table length).
    TypeIndexOutOfRange(u64, usize),
    /// A value of the empty type.
    EmptyTypeValue,
    /// A principal given by reference rather than by value.
    OpaquePrincipal,
    /// A negative type code that names no primitive type.
    UnknownPrimitive(i64),
    /// A variant value whose index is not one of its tags (index, number of tags).
    VariantIndexOutOfRange(u64, usize),
    /// A function reference given by reference rather than by value.
    OpaqueFunc,
    /// A function reference whose principal is given by reference.
    OpaqueFuncPrincipal,
    /// A service reference given by reference rather than by value.
    OpaqueService,
    /// A `bool` value byte that is neither 0 nor 1.
    InvalidBool(u8),
    /// An `opt` presence byte that is neither 0 (absent) nor 1 (present).
    InvalidOptFlag(u8),
}

/// One entry of the type table, as far as skipping values needs it.
pub enum SpecEntry {
    Opt(i64),
    Vec(i64),
    Record(Seq<i64>),
    Variant(Seq<(u64, i64)>),
    Func,
    Service,
    Future,
}

/// An entry of a frame's type table, as far as skipping values needs it.
enum Entry {
    Opt(i64),
    Vec(i64),
    Record(Vec<i64>),
    Variant(Vec<(u64, i64)>),
    Func,
    Service,
    Future,
}

impl View for Entry {
    type V = SpecEntry;

    closed spec fn view(&self) -> SpecEntry {
        match self {
            Entry::Opt(t) => SpecEntry::Opt(*t),
            Entry::Vec(t) => SpecEntry::Vec(*t),
            Entry::Record(fs) => SpecEntry::Record(fs@),
            Entry::Variant(ts) => SpecEntry::Variant(ts@),
            Entry::Func => SpecEntry::Func,
            Entry::Service => SpecEntry::Service,
            Entry::Future => SpecEntry::Future,
        }
    }
}

closed spec fn table_view(t: Seq<Entry>) -> Seq<SpecEntry> {
    t.map_values(|e: Entry| e@)
}

pub open spec fn two_pow_64() -> int {
    0x1_0000_0000_0000_0000
}

/// `128^n`.
pub open spec fn radix(n: nat) -> nat
    decreases n,
{
    if n == 0 {
        1
    } else {
        128 * radix((n - 1) as nat)
    }
}

/// The unsigned number that the 7-bit groups of `g` spell, least significant group first.
pub open spec fn leb_number(g: Seq<u8>) -> nat
    decreases g.len(),
{
    if g.len() == 0 {
        0
    } else {
        leb_number(g.drop_last()) + (g.last() % 128) as nat * radix((g.len() - 1) as nat)
    }
}

/// How a LEB128 number that starts at `p` ends: after `k` bytes, because
/// the data runs out first, or because it would take more than ten bytes.
pub enum LebScan {
    Done(nat),
    End,
    TooLong,
}

/// Scans a LEB128 number at `p`, of which `i` continuation bytes were seen.
pub open spec fn leb_scan(d: Seq<u8>, p: int, i: nat) -> LebScan
    decreases 10 - i,
{
    if i >= 10 {
        LebScan::TooLong
    } else if p + i >= d.len() {
        LebScan::End
    } else if d[p + i] < 128 {
        LebScan::Done(i + 1)
    } else if i + 1 >= 10 {
        LebScan::TooLong
    } else {
        leb_scan(d, p, i + 1)
    }
}

/// The unsigned LEB128 number at `p`, kept to its low 64 bits, and the position after it.
pub open spec fn spec_uleb(d: Seq<u8>, p: int) -> Result<(u64, int), FrameError> {
    match leb_scan(d, p, 0) {
        LebScan::Done(k) => Ok(
            ((leb_number(d.subrange(p, p + k)) as int % two_pow_64()) as u64, p + k),
        ),
        LebScan::End => Err(FrameError::UnexpectedEnd),
        LebScan::TooLong => Err(FrameError::LebOverflow),
    }
}

/// The two's-complement value of the low 64 bits of `v`.
pub open spec fn wrap_i64(v: int) -> i64 {
    let u = v % two_pow_64();
    if u >= 0x8000_0000_0000_0000 {
        (u - two_pow_64()) as i64
    } else {
        u as i64
    }
}

/// The signed value of the LEB128 group `g`: its sign is bit 6 of the last
/// byte, extended from bit `7 * len`; a ten-byte group keeps its low 64 bits.
pub open spec fn sleb_number(g: Seq<u8>) -> i64 {
    let v = leb_number(g);
    if g.len() < 10 {
        if g.last() % 128 >= 64 {
            (v - radix(g.len())) as i64
        } else {
            v as i64
        }
    } else {
        wrap_i64(v as int)
    }
}

/// The signed LEB128 number at `p` and the position after it.
pub open spec fn spec_sleb(d: Seq<u8>, p: int) -> Result<(i64, int), FrameError> {
    match leb_scan(d, p, 0) {
        LebScan::Done(k) => Ok((sleb_number(d.subrange(p, p + k)), p + k)),
        LebScan::End => Err(FrameError::UnexpectedEnd),
        LebScan::TooLong => Err(FrameError::SlebOverflow),
    }
}

/// The byte at `p` and the position after it.
pub open spec fn spec_byte(d: Seq<u8>, p: int) -> Result<(u8, int), FrameError> {
    if 0 <= p < d.len() {
        Ok((d[p], p + 1))
    } else {
        Err(FrameError::UnexpectedEnd)
    }
}

/// The position `n` bytes after `p`.
pub open spec fn spec_skip(d: Seq<u8>, p: int, n: int) -> Result<int, FrameError> {
    if p + n <= d.len() {
        Ok(p + n)
    } else {
        Err(FrameError::UnexpectedEnd)
    }
}


/// Reads `n` (hash, type) pairs of a record type after `acc`; keeps the types.
pub open spec fn spec_fields(d: Seq<u8>, p: int, n: nat, acc: Seq<i64>) -> Result<(Seq<i64>, int), FrameError>
    decreases n,
{
    if n == 0 {
        Ok((acc, p))
    } else {
        match spec_uleb(d, p) {
            Err(e) => Err(e),
            Ok((_h, p1)) => match spec_sleb(d, p1) {
                Err(e) => Err(e),
                Ok((t, p2)) => spec_fields(d, p2, (n - 1) as nat, acc.push(t)),
            },
        }
    }
}

/// Reads `n` (hash, type) pairs of a variant type after `acc`.
pub open spec fn spec_tags(d: Seq<u8>, p: int, n: nat, acc: Seq<(u64, i64)>) -> Result<(Seq<(u64, i64)>, int), FrameError>
    decreases n,
{
    if n == 0 {
        Ok((acc, p))
    } else {
        match spec_uleb(d, p) {
            Err(e) => Err(e),
            Ok((h, p1)) => match spec_sleb(d, p1) {
                Err(e) => Err(e),
                Ok((t, p2)) => spec_tags(d, p2, (n - 1) as nat, acc.push((h, t))),
            },
        }
    }
}

/// Reads `n` signed LEB128 numbers after `acc`.
pub open spec fn spec_slebs(d: Seq<u8>, p: int, n: nat, acc: Seq<i64>) -> Result<(Seq<i64>, int), FrameError>
    decreases n,
{
    if n == 0 {
        Ok((acc, p))
    } else {
        match spec_sleb(d, p) {
            Err(e) => Err(e),
            Ok((t, p1)) => spec_slebs(d, p1, (n - 1) as nat, acc.push(t)),
        }
    }
}

/// Skips `n` service methods: a name length, the name, and a type reference each.
pub open spec fn spec_methods(d: Seq<u8>, p: int, n: nat) -> Result<int, FrameError>
    decreases n,
{
    if n == 0 {
        Ok(p)
    } else {
        match spec_uleb(d, p) {
            Err(e) => Err(e),
            Ok((len, p1)) => match spec_skip(d, p1, len as int) {
                Err(e) => Err(e),
                Ok(p2) => match spec_sleb(d, p2) {
                    Err(e) => Err(e),
                    Ok((_t, p3)) => spec_methods(d, p3, (n - 1) as nat),
                },
            },
        }
    }
}

/// Reads one type-table entry.
pub open spec fn spec_entry(d: Seq<u8>, p: int) -> Result<(SpecEntry, int), FrameError> {
    match spec_sleb(d, p) {
        Err(e) => Err(e),
        Ok((code, p1)) => if code == -18 || code == -19 {
            match spec_sleb(d, p1) {
                Err(e) => Err(e),
                Ok((t, p2)) => Ok((if code == -18 { SpecEntry::Opt(t) } else { SpecEntry::Vec(t) }, p2)),
            }
        } else if code == -20 {
            match spec_uleb(d, p1) {
                Err(e) => Err(e),
                Ok((n, p2)) => match spec_fields(d, p2, n as nat, Seq::empty()) {
                    Err(e) => Err(e),
                    Ok((fs, p3)) => Ok((SpecEntry::Record(fs), p3)),
                },
            }
        } else if code == -21 {
            match spec_uleb(d, p1) {
                Err(e) => Err(e),
                Ok((n, p2)) => match spec_tags(d, p2, n as nat, Seq::empty()) {
                    Err(e) => Err(e),
                    Ok((ts, p3)) => Ok((SpecEntry::Variant(ts), p3)),
                },
            }
        } else if code == -22 {
            match spec_uleb(d, p1) {
                Err(e) => Err(e),
                Ok((na, p2)) => match spec_slebs(d, p2, na as nat, Seq::empty()) {
                    Err(e) => Err(e),
                    Ok((_a, p3)) => match spec_uleb(d, p3) {
                        Err(e) => Err(e),
                        Ok((nr, p4)) => match spec_slebs(d, p4, nr as nat, Seq::empty()) {
                            Err(e) => Err(e),
                            Ok((_r, p5)) => match spec_byte(d, p5) {
                                Err(e) => Err(e),
                                Ok((nann, p6)) => match spec_skip(d, p6, nann as int) {
                                    Err(e) => Err(e),
                                    Ok(p7) => Ok((SpecEntry::Func, p7)),
                                },
                            },
                        },
                    },
                },
            }
        } else if code == -23 {
            match spec_uleb(d, p1) {
                Err(e) => Err(e),
                Ok((n, p2)) => match spec_methods(d, p2, n as nat) {
                    Err(e) => Err(e),
                    Ok(p3) => Ok((SpecEntry::Service, p3)),
                },
            }
        } else if code < -24 {
            match spec_uleb(d, p1) {
                Err(e) => Err(e),
                Ok((len, p2)) => match spec_skip(d, p2, len as int) {
                    Err(e) => Err(e),
                    Ok(p3) => Ok((SpecEntry::Future, p3)),
                },
            }
        } else {
            Err(FrameError::UnexpectedOpcode(code))
        },
    }
}

/// Reads `n` type-table entries after `acc`.
pub open spec fn spec_entries(d: Seq<u8>, p: int, n: nat, acc: Seq<SpecEntry>) -> Result<(Seq<SpecEntry>, int), FrameError>
    decreases n,
{
    if n == 0 {
        Ok((acc, p))
    } else {
        match spec_entry(d, p) {
            Err(e) => Err(e),
            Ok((en, p1)) => spec_entries(d, p1, (n - 1) as nat, acc.push(en)),
        }
    }
}

/// Reads the type table: its length, then its entries.
pub open spec fn spec_table(d: Seq<u8>, p: int) -> Result<(Seq<SpecEntry>, int), FrameError> {
    match spec_uleb(d, p) {
        Err(e) => Err(e),
        Ok((n, p1)) => spec_entries(d, p1, n as nat, Seq::empty()),
    }
}

/// Skips a value of the primitive type with code `t` (a negative code).
pub open spec fn spec_skip_primitive(d: Seq<u8>, p: int, t: i64) -> Result<int, FrameError> {
    if t == -1 || t == -16 {
        Ok(p)
    } else if t == -2 {
        match spec_byte(d, p) {
            Err(e) => Err(e),
            Ok((b, p1)) => if b > 1 {
                Err(FrameError::InvalidBool(b))
            } else {
                Ok(p1)
            },
        }
    } else if t == -5 || t == -9 {
        spec_skip(d, p, 1)
    } else if t == -3 {
        match spec_uleb(d, p) {
            Err(e) => Err(e),
            Ok((_v, p1)) => Ok(p1),
        }
    } else if t == -4 {
        match spec_sleb(d, p) {
            Err(e) => Err(e),
            Ok((_v, p1)) => Ok(p1),
        }
    } else if t == -6 || t == -10 {
        spec_skip(d, p, 2)
    } else if t == -7 || t == -11 || t == -13 {
        spec_skip(d, p, 4)
    } else if t == -8 || t == -12 || t == -14 {
        spec_skip(d, p, 8)
    } else if t == -15 {
        match spec_uleb(d, p) {
            Err(e) => Err(e),
            Ok((len, p1)) => spec_skip(d, p1, len as int),
        }
    } else if t == -17 {
        Err(FrameError::EmptyTypeValue)
    } else if t == -24 {
        match spec_byte(d, p) {
            Err(e) => Err(e),
            Ok((flag, p1)) => if flag != 1 {
                Err(FrameError::OpaquePrincipal)
            } else {
                match spec_uleb(d, p1) {
                    Err(e) => Err(e),
                    Ok((len, p2)) => spec_skip(d, p2, len as int),
                }
            },
        }
    } else {
        Err(FrameError::UnknownPrimitive(t))
    }
}

/// Skips a value of type `t` at nesting depth `depth`.
pub open spec fn spec_skip_value(d: Seq<u8>, p: int, t: i64, table: Seq<SpecEntry>, depth: int) -> Result<int, FrameError>
    decreases 1001 - depth, 3int, 0int,
{
    if depth > 1000 {
        Err(FrameError::DepthLimit)
    } else if t >= 0 {
        if t >= table.len() {
            Err(FrameError::TypeIndexOutOfRange(t as u64, table.len() as usize))
        } else {
            spec_skip_entry(d, p, table[t as int], table, depth)
        }
    } else {
        spec_skip_primitive(d, p, t)
    }
}

/// Skips a value whose type is the table entry `en`, at depth `depth`.
pub open spec fn spec_skip_entry(d: Seq<u8>, p: int, en: SpecEntry, table: Seq<SpecEntry>, depth: int) -> Result<int, FrameError>
    decreases 1001 - depth, 2int, 0int,
{
    if depth > 1000 {
        Err(FrameError::DepthLimit)
    } else {
        match en {
            SpecEntry::Opt(inner) => match spec_byte(d, p) {
                Err(e) => Err(e),
                Ok((present, p1)) => if present == 1 {
                    spec_skip_value(d, p1, inner, table, depth + 1)
                } else if present == 0 {
                    Ok(p1)
                } else {
                    Err(FrameError::InvalidOptFlag(present))
                },
            },
            SpecEntry::Vec(inner) => match spec_uleb(d, p) {
                Err(e) => Err(e),
                Ok((count, p1)) => if inner == -5 {
                    spec_skip(d, p1, count as int)
                } else {
                    spec_skip_items(d, p1, inner, table, depth + 1, count as nat)
                },
            },
            SpecEntry::Record(fields) => spec_skip_seq(d, p, fields, table, depth + 1, 0),
            SpecEntry::Variant(tags) => match spec_uleb(d, p) {
                Err(e) => Err(e),
                Ok((idx, p1)) => if idx >= tags.len() {
                    Err(FrameError::VariantIndexOutOfRange(idx, tags.len() as usize))
                } else {
                    spec_skip_value(d, p1, tags[idx as int].1, table, depth + 1)
                },
            },
            SpecEntry::Func => match spec_byte(d, p) {
                Err(e) => Err(e),
                Ok((flag, p1)) => if flag != 1 {
                    Err(FrameError::OpaqueFunc)
                } else {
                    match spec_byte(d, p1) {
                        Err(e) => Err(e),
                        Ok((pflag, p2)) => if pflag != 1 {
                            Err(FrameError::OpaqueFuncPrincipal)
                        } else {
                            match spec_uleb(d, p2) {
                                Err(e) => Err(e),
                                Ok((plen, p3)) => match spec_skip(d, p3, plen as int) {
                                    Err(e) => Err(e),
                                    Ok(p4) => match spec_uleb(d, p4) {
                                        Err(e) => Err(e),
                                        Ok((mlen, p5)) => spec_skip(d, p5, mlen as int),
                                    },
                                },
                            }
                        },
                    }
                },
            },
            SpecEntry::Service => match spec_byte(d, p) {
                Err(e) => Err(e),
                Ok((flag, p1)) => if flag != 1 {
                    Err(FrameError::OpaqueService)
                } else {
                    match spec_uleb(d, p1) {
                        Err(e) => Err(e),
                        Ok((len, p2)) => spec_skip(d, p2, len as int),
                    }
                },
            },
            SpecEntry::Future => match spec_uleb(d, p) {
                Err(e) => Err(e),
                Ok((_slots, p1)) => match spec_uleb(d, p1) {
                    Err(e) => Err(e),
                    Ok((len, p2)) => spec_skip(d, p2, len as int),
                },
            },
        }
    }
}

/// Skips `count` values of type `t`, each at depth `depth`.
pub open spec fn spec_skip_items(d: Seq<u8>, p: int, t: i64, table: Seq<SpecEntry>, depth: int, count: nat) -> Result<int, FrameError>
    decreases 1001 - depth, 4int, count,
{
    if count == 0 {
        Ok(p)
    } else {
        match spec_skip_value(d, p, t, table, depth) {
            Err(e) => Err(e),
            Ok(p1) => spec_skip_items(d, p1, t, table, depth, (count - 1) as nat),
        }
    }
}

/// Skips one value of each type in `types` from index `i` on, each at depth `depth`.
pub open spec fn spec_skip_seq(d: Seq<u8>, p: int, types: Seq<i64>, table: Seq<SpecEntry>, depth: int, i: nat) -> Result<int, FrameError>
    decreases 1001 - depth, 4int, types.len() - i,
{
    if i >= types.len() {
        Ok(p)
    } else {
        match spec_skip_value(d, p, types[i as int], table, depth) {
            Err(e) => Err(e),
            Ok(p1) => spec_skip_seq(d, p1, types, table, depth, i + 1),
        }
    }
}

/// The bytes `DIDL` that open every frame.
pub open spec fn didl_magic() -> Seq<u8> {
    seq![0x44u8, 0x49u8, 0x44u8, 0x4cu8]
}

/// The length of the first complete frame in `d`: the magic, the type
/// table, the argument types and one value of each argument type.
#[verifier::opaque]
pub open spec fn spec_frame_size(d: Seq<u8>) -> Result<int, FrameError> {
    if d.len() < 4 || d.subrange(0, 4) != didl_magic() {
        Err(FrameError::MissingMagic)
    } else {
        match spec_table(d, 4) {
            Err(e) => Err(e),
            Ok((table, p1)) => match spec_uleb(d, p1) {
                Err(e) => Err(e),
                Ok((n, p2)) => match spec_slebs(d, p2, n as nat, Seq::empty()) {
                    Err(e) => Err(e),
                    Ok((args, p3)) => spec_skip_seq(d, p3, args, table, 0, 0),
                },
            },
        }
    }
}

proof fn lemma_radix_step(n: nat)
    ensures
        radix(n + 1) == 128 * radix(n),
        radix(n) >= 1,
    decreases n,
{
    if n > 0 {
        lemma_radix_step((n - 1) as nat);
    }
}

proof fn lemma_radix_values()
    ensures
        radix(8) == 0x100_0000_0000_0000,
        radix(9) == 0x8000_0000_0000_0000,
{
    reveal_with_fuel(radix, 10);
}

proof fn lemma_radix_mono(a: nat, b: nat)
    requires
        a <= b,
    ensures
        radix(a) <= radix(b),
    decreases b,
{
    if a < b {
        lemma_radix_mono(a, (b - 1) as nat);
        lemma_radix_step((b - 1) as nat);
    }
}

proof fn lemma_leb_push(g: Seq<u8>, b: u8)
    ensures
        leb_number(g.push(b)) == leb_number(g) + (b % 128) as nat * radix(g.len()),
{
    assert(g.push(b).drop_last() =~= g);
}

proof fn lemma_leb_bound(g: Seq<u8>)
    ensures
        leb_number(g) < radix(g.len()),
    decreases g.len(),
{
    if g.len() > 0 {
        let n = (g.len() - 1) as nat;
        lemma_leb_bound(g.drop_last());
        lemma_radix_step(n);
        let x = (g.last() % 128) as nat;
        assert(x * radix(n) <= 127 * radix(n)) by (nonlinear_arith)
            requires
                x <= 127,
        ;
    }
}

proof fn lemma_top_group_mod(a: int, b: int)
    requires
        0 <= a < 0x8000_0000_0000_0000,
        0 <= b < 128,
    ensures
        (a + b * 0x8000_0000_0000_0000) % two_pow_64() == a + (b % 2) * 0x8000_0000_0000_0000,
{
    lemma_fundamental_div_mod(b, 2);
    let q = b / 2;
    let r = b % 2;
    assert(b * 0x8000_0000_0000_0000 == q * two_pow_64() + r * 0x8000_0000_0000_0000)
        by (nonlinear_arith)
        requires
            b == 2 * q + r,
    ;
    lemma_mod_multiples_vanish(q, a + r * 0x8000_0000_0000_0000, two_pow_64());
    assert(two_pow_64() * q == q * two_pow_64()) by (nonlinear_arith);
    lemma_small_mod((a + r * 0x8000_0000_0000_0000) as nat, two_pow_64() as nat);
}

proof fn lemma_scan_prefix(d: Seq<u8>, p: int, i: nat)
    requires
        i < 10,
        forall|j: int| 0 <= j < i ==> p + j < d.len() && #[trigger] d[p + j] >= 128,
    ensures
        leb_scan(d, p, 0) == leb_scan(d, p, i),
    decreases i,
{
    if i > 0 {
        let k = (i - 1) as nat;
        assert forall|j: int| 0 <= j < k implies p + j < d.len() && #[trigger] d[p + j] >= 128 by {
            assert(d[p + j] >= 128);
        }
        lemma_scan_prefix(d, p, k);
        assert(d[p + k] >= 128);
        assert(leb_scan(d, p, k) == leb_scan(d, p, i));
    }
}

/// A read position in a byte string, never past its end.
struct Cursor<'a> {
    data: &'a [u8],
    pos: usize,
}

impl<'a> Cursor<'a> {
    #[verifier::type_invariant]
    spec fn within(self) -> bool {
        self.pos <= self.data@.len()
    }

    fn new(data: &'a [u8]) -> (c: Self)
        ensures
            c.data@ == data@,
            c.pos == 0,
    {
        Cursor { data, pos: 0 }
    }

    fn read_byte(&mut self) -> (r: Result<u8, FrameError>)
        ensures
            final(self).data@ == old(self).data@,
            final(self).pos <= final(self).data@.len(),
            match spec_byte(old(self).data@, old(self).pos as int) {
                Ok((b, q)) => r == Ok::<u8, FrameError>(b) && final(self).pos == q,
                Err(e) => r == Err::<u8, FrameError>(e) && final(self).pos == old(self).pos,
            },
    {
        proof {
            use_type_invariant(&*self);
        }
        if self.pos >= self.data.len() {
            return Err(FrameError::UnexpectedEnd);
        }
        let b = self.data[self.pos];
        self.pos = self.pos + 1;
        Ok(b)
    }

    fn skip_n(&mut self, n: u64) -> (r: Result<(), FrameError>)
        ensures
            final(self).data@ == old(self).data@,
            final(self).pos <= final(self).data@.len(),
            match spec_skip(old(self).data@, old(self).pos as int, n as int) {
                Ok(q) => r == Ok::<(), FrameError>(()) && final(self).pos == q,
                Err(e) => r == Err::<(), FrameError>(e) && final(self).pos == old(self).pos,
            },
    {
        proof {
            use_type_invariant(&*self);
        }
        let room = self.data.len() - self.pos;
        if n > room as u64 {
            return Err(FrameError::UnexpectedEnd);
        }
        self.pos = self.pos + n as usize;
        Ok(())
    }

    /// Reads the bytes of one LEB128 number; returns its low 64 bits, its
    /// length in bytes, its last byte and `128^(length - 1)`.
    fn read_leb_group(&mut self, signed: bool) -> (r: Result<(u64, u64, u8, u64), FrameError>)
        ensures
            final(self).data@ == old(self).data@,
            final(self).pos <= final(self).data@.len(),
            ({
                let d = old(self).data@;
                let p = old(self).pos as int;
                match leb_scan(d, p, 0) {
                    LebScan::Done(k) => {
                        &&& r is Ok
                        &&& r->Ok_0.0 as int == leb_number(d.subrange(p, p + k)) as int % two_pow_64()
                        &&& r->Ok_0.1 == k
                        &&& r->Ok_0.2 == d[p + k - 1]
                        &&& r->Ok_0.3 == radix((k - 1) as nat)
                        &&& 1 <= k <= 10
                        &&& final(self).pos == p + k
                    },
                    LebScan::End => r == Err::<(u64, u64, u8, u64), FrameError>(FrameError::UnexpectedEnd),
                    LebScan::TooLong => r == Err::<(u64, u64, u8, u64), FrameError>(
                        if signed { FrameError::SlebOverflow } else { FrameError::LebOverflow },
                    ),
                }
            }),
    {
        proof {
            use_type_invariant(&*self);
        }
        let ghost d = self.data@;
        let start = self.pos;
        let mut i: u64 = 0;
        let mut result: u64 = 0;
        let mut mult: u64 = 1;
        proof {
            lemma_radix_values();
            assert(d.subrange(start as int, start as int) =~= Seq::<u8>::empty());
        }
        loop
            invariant
                i < 10,
                d == old(self).data@,
                start == old(self).pos,
                self.data@ == d,
                self.pos == start + i,
                self.pos <= d.len(),
                mult == radix(i as nat),
                result == leb_number(d.subrange(start as int, start + i)),
                forall|j: int| 0 <= j < i ==> #[trigger] d[start + j] >= 128,
                radix(8) == 0x100_0000_0000_0000,
                radix(9) == 0x8000_0000_0000_0000,
            decreases 10 - i,
        {
            proof {
                lemma_scan_prefix(d, start as int, i as nat);
            }
            let byte = match self.read_byte() {
                Ok(b) => b,
                Err(e) => {
                    return Err(e);
                },
            };
            let ghost g = d.subrange(start as int, start + i);
            proof {
                assert(d.subrange(start as int, start + i + 1) =~= g.push(byte));
                lemma_leb_push(g, byte);
                lemma_leb_bound(g);
                lemma_radix_mono(i as nat, 9);
                lemma_radix_step(i as nat);
            }
            let payload = (byte % 128) as u64;
            if i < 9 {
                proof {
                    lemma_radix_mono((i + 1) as nat, 9);
                    assert(payload * mult <= 127 * mult) by (nonlinear_arith)
                        requires
                            payload <= 127,
                    ;
                }
                result = result + payload * mult;
            } else {
                proof {
                    assert((payload % 2) * mult <= mult) by (nonlinear_arith)
                        requires
                            payload % 2 <= 1,
                    ;
                    lemma_top_group_mod(
                        leb_number(g) as int,
                        payload as int,
                    );
                }
                result = result + (payload % 2) * mult;
            }
            if byte < 128 {
                proof {
                    let full = d.subrange(start as int, start + i + 1);
                    lemma_leb_bound(full);
                    if i < 9 {
                        lemma_radix_mono((i + 1) as nat, 9);
                        lemma_small_mod(leb_number(full), two_pow_64() as nat);
                    }
                    assert(full[i as int] == byte);
                    assert(d[start + i] == byte);
                    lemma_scan_prefix(d, start as int, i as nat);
                    assert(leb_scan(d, start as int, i as nat) == LebScan::Done((i + 1) as nat));
                    assert(leb_number(full) == leb_number(g) + payload * radix(i as nat));
                    if i == 9 {
                        assert(result as int == leb_number(full) as int % two_pow_64());
                    }
                }
                return Ok((result, i + 1, byte, mult));
            }
            if i + 1 >= 10 {
                if signed {
                    return Err(FrameError::SlebOverflow);
                } else {
                    return Err(FrameError::LebOverflow);
                }
            }
            if i < 9 {
                assert(result == leb_number(d.subrange(start as int, start + i + 1)));
            }
            assert(d[start + i] >= 128);
            mult = mult * 128;
            i = i + 1;
        }
    }

    fn read_uleb(&mut self) -> (r: Result<u64, FrameError>)
        ensures
            final(self).data@ == old(self).data@,
            final(self).pos <= final(self).data@.len(),
            match spec_uleb(old(self).data@, old(self).pos as int) {
                Ok((v, q)) => r == Ok::<u64, FrameError>(v) && final(self).pos == q,
                Err(e) => r == Err::<u64, FrameError>(e),
            },
    {
        proof {
            use_type_invariant(&*self);
        }
        match self.read_leb_group(false) {
            Ok((v, _k, _last, _m)) => Ok(v),
            Err(e) => Err(e),
        }
    }

    fn read_sleb(&mut self) -> (r: Result<i64, FrameError>)
        ensures
            final(self).data@ == old(self).data@,
            final(self).pos <= final(self).data@.len(),
            match spec_sleb(old(self).data@, old(self).pos as int) {
                Ok((v, q)) => r == Ok::<i64, FrameError>(v) && final(self).pos == q,
                Err(e) => r == Err::<i64, FrameError>(e),
            },
    {
        proof {
            use_type_invariant(&*self);
        }
        let ghost d = self.data@;
        let ghost p = self.pos as int;
        let (v, k, last, m) = match self.read_leb_group(true) {
            Ok(t) => t,
            Err(e) => {
                return Err(e);
            },
        };
        let ghost g = d.subrange(p, p + k);
        proof {
            lemma_radix_values();
            lemma_leb_bound(g);
            assert(g.last() == last);
        }
        if k < 10 {
            proof {
                lemma_radix_mono(k as nat, 9);
                lemma_small_mod(leb_number(g), two_pow_64() as nat);
                lemma_radix_step((k - 1) as nat);
                lemma_radix_mono((k - 1) as nat, 8);
            }
            if last % 128 >= 64 {
                let rk = m * 128;
                proof {
                    assert(leb_number(g) >= radix((k - 1) as nat) * 64) by {
                        let h = g.drop_last();
                        assert(leb_number(g) == leb_number(h) + (last % 128) as nat * radix((k - 1) as nat));
                        assert((last % 128) as nat * radix((k - 1) as nat) >= 64 * radix((k - 1) as nat))
                            by (nonlinear_arith)
                            requires
                                last % 128 >= 64,
                        ;
                    }
                }
                Ok((v as i64) - ((rk - 1) as i64) - 1)
            } else {
                Ok(v as i64)
            }
        } else {
            if v >= 0x8000_0000_0000_0000 {
                Ok(((v - 0x8000_0000_0000_0000) as i64) + i64::MIN)
            } else {
                Ok(v as i64)
            }
        }
    }
}


/// The outcome of an exec reader agrees with the spec reader `spec` on the
/// value `v` it hands back and on where the cursor ends.
pub open spec fn agrees<T, U>(spec: Result<(T, int), FrameError>, r: Result<U, FrameError>, v: T, pos: usize) -> bool {
    match spec {
        Ok((x, q)) => r is Ok && v == x && pos == q,
        Err(e) => r == Err::<U, FrameError>(e),
    }
}

/// As [`agrees`], for readers that hand back only a position.
pub open spec fn agrees_pos<U>(spec: Result<int, FrameError>, r: Result<U, FrameError>, pos: usize) -> bool {
    match spec {
        Ok(q) => r is Ok && pos == q,
        Err(e) => r == Err::<U, FrameError>(e),
    }
}

fn read_fields(c: &mut Cursor, n: u64) -> (r: Result<Vec<i64>, FrameError>)
    ensures
        final(c).data@ == old(c).data@,
        final(c).pos <= final(c).data@.len(),
        agrees(spec_fields(old(c).data@, old(c).pos as int, n as nat, Seq::empty()), r,
            match r { Ok(v) => v@, Err(_) => Seq::empty() }, final(c).pos),
{
    proof {
        use_type_invariant(&*c);
    }
    let ghost d = c.data@;
    let ghost p0 = c.pos as int;
    let mut acc: Vec<i64> = Vec::new();
    let mut i: u64 = 0;
    while i < n
        invariant
            d == old(c).data@,
            p0 == old(c).pos,
            c.data@ == d,
            c.pos <= d.len(),
            i <= n,
            spec_fields(d, p0, n as nat, Seq::empty()) == spec_fields(d, c.pos as int, (n - i) as nat, acc@),
        decreases n - i,
    {
        c.read_uleb()?;
        let t = c.read_sleb()?;
        acc.push(t);
        i = i + 1;
    }
    Ok(acc)
}

fn read_tags(c: &mut Cursor, n: u64) -> (r: Result<Vec<(u64, i64)>, FrameError>)
    ensures
        final(c).data@ == old(c).data@,
        final(c).pos <= final(c).data@.len(),
        agrees(spec_tags(old(c).data@, old(c).pos as int, n as nat, Seq::empty()), r,
            match r { Ok(v) => v@, Err(_) => Seq::empty() }, final(c).pos),
{
    proof {
        use_type_invariant(&*c);
    }
    let ghost d = c.data@;
    let ghost p0 = c.pos as int;
    let mut acc: Vec<(u64, i64)> = Vec::new();
    let mut i: u64 = 0;
    while i < n
        invariant
            d == old(c).data@,
            p0 == old(c).pos,
            c.data@ == d,
            c.pos <= d.len(),
            i <= n,
            spec_tags(d, p0, n as nat, Seq::empty()) == spec_tags(d, c.pos as int, (n - i) as nat, acc@),
        decreases n - i,
    {
        let h = c.read_uleb()?;
        let t = c.read_sleb()?;
        acc.push((h, t));
        i = i + 1;
    }
    Ok(acc)
}

fn read_slebs(c: &mut Cursor, n: u64) -> (r: Result<Vec<i64>, FrameError>)
    ensures
        final(c).data@ == old(c).data@,
        final(c).pos <= final(c).data@.len(),
        agrees(spec_slebs(old(c).data@, old(c).pos as int, n as nat, Seq::empty()), r,
            match r { Ok(v) => v@, Err(_) => Seq::empty() }, final(c).pos),
{
    proof {
        use_type_invariant(&*c);
    }
    let ghost d = c.data@;
    let ghost p0 = c.pos as int;
    let mut acc: Vec<i64> = Vec::new();
    let mut i: u64 = 0;
    while i < n
        invariant
            d == old(c).data@,
            p0 == old(c).pos,
            c.data@ == d,
            c.pos <= d.len(),
            i <= n,
            spec_slebs(d, p0, n as nat, Seq::empty()) == spec_slebs(d, c.pos as int, (n - i) as nat, acc@),
        decreases n - i,
    {
        let t = c.read_sleb()?;
        acc.push(t);
        i = i + 1;
    }
    Ok(acc)
}

fn skip_methods(c: &mut Cursor, n: u64) -> (r: Result<(), FrameError>)
    ensures
        final(c).data@ == old(c).data@,
        final(c).pos <= final(c).data@.len(),
        agrees_pos(spec_methods(old(c).data@, old(c).pos as int, n as nat), r, final(c).pos),
{
    proof {
        use_type_invariant(&*c);
    }
    let ghost d = c.data@;
    let ghost p0 = c.pos as int;
    let mut i: u64 = 0;
    while i < n
        invariant
            d == old(c).data@,
            p0 == old(c).pos,
            c.data@ == d,
            c.pos <= d.len(),
            i <= n,
            spec_methods(d, p0, n as nat) == spec_methods(d, c.pos as int, (n - i) as nat),
        decreases n - i,
    {
        let len = c.read_uleb()?;
        c.skip_n(len)?;
        c.read_sleb()?;
        i = i + 1;
    }
    Ok(())
}

fn read_entry(c: &mut Cursor) -> (r: Result<Entry, FrameError>)
    ensures
        final(c).data@ == old(c).data@,
        final(c).pos <= final(c).data@.len(),
        agrees(spec_entry(old(c).data@, old(c).pos as int), r,
            match r { Ok(en) => en@, Err(_) => SpecEntry::Func }, final(c).pos),
{
    proof {
        use_type_invariant(&*c);
    }
    let code = c.read_sleb()?;
    if code == -18 || code == -19 {
        let inner = c.read_sleb()?;
        if code == -18 {
            Ok(Entry::Opt(inner))
        } else {
            Ok(Entry::Vec(inner))
        }
    } else if code == -20 {
        let n = c.read_uleb()?;
        let fields = read_fields(c, n)?;
        Ok(Entry::Record(fields))
    } else if code == -21 {
        let n = c.read_uleb()?;
        let tags = read_tags(c, n)?;
        Ok(Entry::Variant(tags))
    } else if code == -22 {
        let n_args = c.read_uleb()?;
        read_slebs(c, n_args)?;
        let n_rets = c.read_uleb()?;
        read_slebs(c, n_rets)?;
        let n_ann = c.read_byte()?;
        c.skip_n(n_ann as u64)?;
        Ok(Entry::Func)
    } else if code == -23 {
        let n = c.read_uleb()?;
        skip_methods(c, n)?;
        Ok(Entry::Service)
    } else if code < -24 {
        let len = c.read_uleb()?;
        c.skip_n(len)?;
        Ok(Entry::Future)
    } else {
        Err(FrameError::UnexpectedOpcode(code))
    }
}

fn read_type_table(c: &mut Cursor) -> (r: Result<Vec<Entry>, FrameError>)
    ensures
        final(c).data@ == old(c).data@,
        final(c).pos <= final(c).data@.len(),
        agrees(spec_table(old(c).data@, old(c).pos as int), r,
            match r { Ok(t) => table_view(t@), Err(_) => Seq::empty() }, final(c).pos),
{
    proof {
        use_type_invariant(&*c);
    }
    let ghost d = c.data@;
    let ghost p0 = c.pos as int;
    let n = c.read_uleb()?;
    let ghost p1 = c.pos as int;
    let mut table: Vec<Entry> = Vec::new();
    let mut i: u64 = 0;
    proof {
        assert(table_view(table@) =~= Seq::<SpecEntry>::empty());
    }
    while i < n
        invariant
            d == old(c).data@,
            spec_table(d, p0) == spec_entries(d, p1, n as nat, Seq::empty()),
            p0 == old(c).pos,
            c.data@ == d,
            c.pos <= d.len(),
            i <= n,
            spec_entries(d, p1, n as nat, Seq::empty()) == spec_entries(d, c.pos as int, (n - i) as nat, table_view(table@)),
        decreases n - i,
    {
        let en = read_entry(c)?;
        let ghost before = table@;
        table.push(en);
        proof {
            assert(table_view(table@) =~= table_view(before).push(en@));
        }
        i = i + 1;
    }
    Ok(table)
}

fn skip_primitive(c: &mut Cursor, t: i64) -> (r: Result<(), FrameError>)
    ensures
        final(c).data@ == old(c).data@,
        final(c).pos <= final(c).data@.len(),
        agrees_pos(spec_skip_primitive(old(c).data@, old(c).pos as int, t), r, final(c).pos),
        t == -17 || (-24 < t < -16) || t < -24 ==> final(c).pos == old(c).pos,
{
    proof {
        use_type_invariant(&*c);
    }
    if t == -1 || t == -16 {
        Ok(())
    } else if t == -2 {
        let b = c.read_byte()?;
        if b > 1 {
            return Err(FrameError::InvalidBool(b));
        }
        Ok(())
    } else if t == -5 || t == -9 {
        c.skip_n(1)
    } else if t == -3 {
        c.read_uleb()?;
        Ok(())
    } else if t == -4 {
        c.read_sleb()?;
        Ok(())
    } else if t == -6 || t == -10 {
        c.skip_n(2)
    } else if t == -7 || t == -11 || t == -13 {
        c.skip_n(4)
    } else if t == -8 || t == -12 || t == -14 {
        c.skip_n(8)
    } else if t == -15 {
        let len = c.read_uleb()?;
        c.skip_n(len)
    } else if t == -17 {
        Err(FrameError::EmptyTypeValue)
    } else if t == -24 {
        let flag = c.read_byte()?;
        if flag != 1 {
            return Err(FrameError::OpaquePrincipal);
        }
        let len = c.read_uleb()?;
        c.skip_n(len)
    } else {
        Err(FrameError::UnknownPrimitive(t))
    }
}

fn skip_value(c: &mut Cursor, t: i64, table: &Vec<Entry>, depth: u32) -> (r: Result<(), FrameError>)
    ensures
        final(c).data@ == old(c).data@,
        final(c).pos <= final(c).data@.len(),
        agrees_pos(spec_skip_value(old(c).data@, old(c).pos as int, t, table_view(table@), depth as int), r, final(c).pos),
        depth > 1000 || (t >= 0 && t >= table@.len()) || t == -17 || (-24 < t < -16) || t < -24
            ==> final(c).pos == old(c).pos,
    decreases 1001 - depth, 3int, 0int,
{
    proof {
        use_type_invariant(&*c);
    }
    if depth > 1000 {
        return Err(FrameError::DepthLimit);
    }
    if t >= 0 {
        if t as u64 >= table.len() as u64 {
            return Err(FrameError::TypeIndexOutOfRange(t as u64, table.len()));
        }
        skip_entry_value(c, &table[t as usize], table, depth)
    } else {
        skip_primitive(c, t)
    }
}

fn skip_entry_value(c: &mut Cursor, en: &Entry, table: &Vec<Entry>, depth: u32) -> (r: Result<(), FrameError>)
    requires
        depth <= 1000,
    ensures
        final(c).data@ == old(c).data@,
        final(c).pos <= final(c).data@.len(),
        agrees_pos(spec_skip_entry(old(c).data@, old(c).pos as int, en@, table_view(table@), depth as int), r, final(c).pos),
    decreases 1001 - depth, 2int, 0int,
{
    proof {
        use_type_invariant(&*c);
    }
    match en {
        Entry::Opt(inner) => {
            let present = c.read_byte()?;
            if present == 1 {
                skip_value(c, *inner, table, depth + 1)?;
            } else if present != 0 {
                return Err(FrameError::InvalidOptFlag(present));
            }
            Ok(())
        },
        Entry::Vec(inner) => {
            let count = c.read_uleb()?;
            if *inner == -5 {
                c.skip_n(count)
            } else {
                skip_items(c, *inner, table, depth + 1, count)
            }
        },
        Entry::Record(fields) => skip_seq(c, fields, table, depth + 1),
        Entry::Variant(tags) => {
            let idx = c.read_uleb()?;
            if idx >= tags.len() as u64 {
                return Err(FrameError::VariantIndexOutOfRange(idx, tags.len()));
            }
            skip_value(c, tags[idx as usize].1, table, depth + 1)
        },
        Entry::Func => {
            let flag = c.read_byte()?;
            if flag != 1 {
                return Err(FrameError::OpaqueFunc);
            }
            let pflag = c.read_byte()?;
            if pflag != 1 {
                return Err(FrameError::OpaqueFuncPrincipal);
            }
            let plen = c.read_uleb()?;
            c.skip_n(plen)?;
            let mlen = c.read_uleb()?;
            c.skip_n(mlen)
        },
        Entry::Service => {
            let flag = c.read_byte()?;
            if flag != 1 {
                return Err(FrameError::OpaqueService);
            }
            let len = c.read_uleb()?;
            c.skip_n(len)
        },
        Entry::Future => {
            c.read_uleb()?;
            let len = c.read_uleb()?;
            c.skip_n(len)
        },
    }
}

fn skip_items(c: &mut Cursor, t: i64, table: &Vec<Entry>, depth: u32, count: u64) -> (r: Result<(), FrameError>)
    requires
        depth <= 1001,
    ensures
        final(c).data@ == old(c).data@,
        final(c).pos <= final(c).data@.len(),
        agrees_pos(spec_skip_items(old(c).data@, old(c).pos as int, t, table_view(table@), depth as int, count as nat), r, final(c).pos),
    decreases 1001 - depth, 4int, count,
{
    proof {
        use_type_invariant(&*c);
    }
    let ghost d = c.data@;
    let ghost p0 = c.pos as int;
    let mut i: u64 = 0;
    while i < count
        invariant
            d == old(c).data@,
            p0 == old(c).pos,
            c.data@ == d,
            c.pos <= d.len(),
            i <= count,
            depth <= 1001,
            spec_skip_items(d, p0, t, table_view(table@), depth as int, count as nat)
                == spec_skip_items(d, c.pos as int, t, table_view(table@), depth as int, (count - i) as nat),
        decreases count - i,
    {
        skip_value(c, t, table, depth)?;
        i = i + 1;
    }
    Ok(())
}

fn skip_seq(c: &mut Cursor, types: &Vec<i64>, table: &Vec<Entry>, depth: u32) -> (r: Result<(), FrameError>)
    requires
        depth <= 1001,
    ensures
        final(c).data@ == old(c).data@,
        final(c).pos <= final(c).data@.len(),
        agrees_pos(spec_skip_seq(old(c).data@, old(c).pos as int, types@, table_view(table@), depth as int, 0), r, final(c).pos),
    decreases 1001 - depth, 4int, types@.len(),
{
    proof {
        use_type_invariant(&*c);
    }
    let ghost d = c.data@;
    let ghost p0 = c.pos as int;
    let mut i: usize = 0;
    while i < types.len()
        invariant
            d == old(c).data@,
            p0 == old(c).pos,
            c.data@ == d,
            c.pos <= d.len(),
            i <= types.len(),
            depth <= 1001,
            spec_skip_seq(d, p0, types@, table_view(table@), depth as int, 0)
                == spec_skip_seq(d, c.pos as int, types@, table_view(table@), depth as int, i as nat),
        decreases types.len() - i,
    {
        skip_value(c, types[i], table, depth)?;
        i = i + 1;
    }
    Ok(())
}

/// Returns the number of bytes taken by the first complete `DIDL` frame at
/// the start of `bytes`.  Bytes after the frame are not read.
pub fn frame_size(bytes: &[u8]) -> (r: Result<usize, FrameError>)
    ensures
        match spec_frame_size(bytes@) {
            Ok(n) => r == Ok::<usize, FrameError>(n as usize) && n <= bytes@.len(),
            Err(e) => r == Err::<usize, FrameError>(e),
        },
{
    proof {
        reveal(spec_frame_size);
    }
    if bytes.len() < 4 || bytes[0] != 0x44 || bytes[1] != 0x49 || bytes[2] != 0x44 || bytes[3] != 0x4c {
        proof {
            if bytes@.len() >= 4 {
                assert(bytes@.subrange(0, 4)[0] == bytes@[0]);
                assert(bytes@.subrange(0, 4)[1] == bytes@[1]);
                assert(bytes@.subrange(0, 4)[2] == bytes@[2]);
                assert(bytes@.subrange(0, 4)[3] == bytes@[3]);
            }
        }
        return Err(FrameError::MissingMagic);
    }
    proof {
        assert(bytes@.subrange(0, 4) =~= didl_magic());
    }
    let mut c = Cursor::new(bytes);
    c.skip_n(4)?;
    let table = read_type_table(&mut c)?;
    let n_args = c.read_uleb()?;
    let arg_types = read_slebs(&mut c, n_args)?;
    skip_seq(&mut c, &arg_types, &table, 0)?;
    Ok(c.pos)
}

/// `a` and `b` hold the same bytes before position `q`.
pub open spec fn same_upto(a: Seq<u8>, b: Seq<u8>, q: int) -> bool {
    &&& 0 <= q <= a.len()
    &&& q <= b.len()
    &&& forall|i: int| 0 <= i < q ==> a[i] == b[i]
}

proof fn lemma_scan_stable(d: Seq<u8>, d2: Seq<u8>, p: int, i: nat)
    requires
        0 <= p <= d.len(),
        leb_scan(d, p, i) is Done,
    ensures
        same_upto(d, d2, p + leb_scan(d, p, i)->Done_0) ==> leb_scan(d2, p, i) == leb_scan(d, p, i),
        p + leb_scan(d, p, i)->Done_0 <= d.len(),
        i + 1 <= leb_scan(d, p, i)->Done_0 <= 10,
    decreases 10 - i,
{
    if d[p + i] >= 128 {
        lemma_scan_stable(d, d2, p, i + 1);
    }
}

proof fn lemma_uleb_stable(d: Seq<u8>, d2: Seq<u8>, p: int)
    requires
        0 <= p <= d.len(),
        spec_uleb(d, p) is Ok,
    ensures
        same_upto(d, d2, spec_uleb(d, p)->Ok_0.1) ==> spec_uleb(d2, p) == spec_uleb(d, p),
        spec_uleb(d, p)->Ok_0.1 <= d.len(),
        p < spec_uleb(d, p)->Ok_0.1,
{
    lemma_scan_stable(d, d2, p, 0);
    let k = leb_scan(d, p, 0)->Done_0;
    if same_upto(d, d2, p + k) {
        assert(d.subrange(p, p + k) =~= d2.subrange(p, p + k));
    }
}

proof fn lemma_sleb_stable(d: Seq<u8>, d2: Seq<u8>, p: int)
    requires
        0 <= p <= d.len(),
        spec_sleb(d, p) is Ok,
    ensures
        same_upto(d, d2, spec_sleb(d, p)->Ok_0.1) ==> spec_sleb(d2, p) == spec_sleb(d, p),
        spec_sleb(d, p)->Ok_0.1 <= d.len(),
        p < spec_sleb(d, p)->Ok_0.1,
{
    lemma_scan_stable(d, d2, p, 0);
    let k = leb_scan(d, p, 0)->Done_0;
    if same_upto(d, d2, p + k) {
        assert(d.subrange(p, p + k) =~= d2.subrange(p, p + k));
    }
}

proof fn lemma_fields_stable(d: Seq<u8>, d2: Seq<u8>, p: int, n: nat, acc: Seq<i64>)
    requires
        0 <= p <= d.len(),
        spec_fields(d, p, n, acc) is Ok,
    ensures
        same_upto(d, d2, spec_fields(d, p, n, acc)->Ok_0.1) ==> spec_fields(d2, p, n, acc) == spec_fields(d, p, n, acc),
        spec_fields(d, p, n, acc)->Ok_0.1 <= d.len(),
        p <= spec_fields(d, p, n, acc)->Ok_0.1,
    decreases n,
{
    if n > 0 {
        let p1 = spec_uleb(d, p)->Ok_0.1;
        let p2 = spec_sleb(d, p1)->Ok_0.1;
        let t = spec_sleb(d, p1)->Ok_0.0;
        lemma_sleb_stable(d, d2, p1);
        lemma_uleb_stable(d, d2, p);
        lemma_fields_stable(d, d2, p2, (n - 1) as nat, acc.push(t));
    }
}

proof fn lemma_tags_stable(d: Seq<u8>, d2: Seq<u8>, p: int, n: nat, acc: Seq<(u64, i64)>)
    requires
        0 <= p <= d.len(),
        spec_tags(d, p, n, acc) is Ok,
    ensures
        same_upto(d, d2, spec_tags(d, p, n, acc)->Ok_0.1) ==> spec_tags(d2, p, n, acc) == spec_tags(d, p, n, acc),
        spec_tags(d, p, n, acc)->Ok_0.1 <= d.len(),
        p <= spec_tags(d, p, n, acc)->Ok_0.1,
    decreases n,
{
    if n > 0 {
        let p1 = spec_uleb(d, p)->Ok_0.1;
        let h = spec_uleb(d, p)->Ok_0.0;
        let p2 = spec_sleb(d, p1)->Ok_0.1;
        let t = spec_sleb(d, p1)->Ok_0.0;
        lemma_sleb_stable(d, d2, p1);
        lemma_uleb_stable(d, d2, p);
        lemma_tags_stable(d, d2, p2, (n - 1) as nat, acc.push((h, t)));
    }
}

proof fn lemma_slebs_stable(d: Seq<u8>, d2: Seq<u8>, p: int, n: nat, acc: Seq<i64>)
    requires
        0 <= p <= d.len(),
        spec_slebs(d, p, n, acc) is Ok,
    ensures
        same_upto(d, d2, spec_slebs(d, p, n, acc)->Ok_0.1) ==> spec_slebs(d2, p, n, acc) == spec_slebs(d, p, n, acc),
        spec_slebs(d, p, n, acc)->Ok_0.1 <= d.len(),
        p <= spec_slebs(d, p, n, acc)->Ok_0.1,
    decreases n,
{
    if n > 0 {
        let p1 = spec_sleb(d, p)->Ok_0.1;
        let t = spec_sleb(d, p)->Ok_0.0;
        lemma_sleb_stable(d, d2, p);
        lemma_slebs_stable(d, d2, p1, (n - 1) as nat, acc.push(t));
    }
}

proof fn lemma_methods_stable(d: Seq<u8>, d2: Seq<u8>, p: int, n: nat)
    requires
        0 <= p <= d.len(),
        spec_methods(d, p, n) is Ok,
    ensures
        same_upto(d, d2, spec_methods(d, p, n)->Ok_0) ==> spec_methods(d2, p, n) == spec_methods(d, p, n),
        spec_methods(d, p, n)->Ok_0 <= d.len(),
        p <= spec_methods(d, p, n)->Ok_0,
    decreases n,
{
    if n > 0 {
        let p1 = spec_uleb(d, p)->Ok_0.1;
        let len = spec_uleb(d, p)->Ok_0.0;
        let p2 = p1 + len;
        let p3 = spec_sleb(d, p2)->Ok_0.1;
        lemma_sleb_stable(d, d2, p2);
        lemma_uleb_stable(d, d2, p);
        lemma_methods_stable(d, d2, p3, (n - 1) as nat);
    }
}

proof fn lemma_entry_stable(d: Seq<u8>, d2: Seq<u8>, p: int)
    requires
        0 <= p <= d.len(),
        spec_entry(d, p) is Ok,
    ensures
        same_upto(d, d2, spec_entry(d, p)->Ok_0.1) ==> spec_entry(d2, p) == spec_entry(d, p),
        spec_entry(d, p)->Ok_0.1 <= d.len(),
        p <= spec_entry(d, p)->Ok_0.1,
{
    lemma_sleb_stable(d, d2, p);
    let code = spec_sleb(d, p)->Ok_0.0;
    let p1 = spec_sleb(d, p)->Ok_0.1;
    if code == -18 || code == -19 {
        lemma_sleb_stable(d, d2, p1);
    } else if code == -20 {
        lemma_uleb_stable(d, d2, p1);
        let n = spec_uleb(d, p1)->Ok_0.0;
        let p2 = spec_uleb(d, p1)->Ok_0.1;
        lemma_fields_stable(d, d2, p2, n as nat, Seq::empty());
    } else if code == -21 {
        lemma_uleb_stable(d, d2, p1);
        let n = spec_uleb(d, p1)->Ok_0.0;
        let p2 = spec_uleb(d, p1)->Ok_0.1;
        lemma_tags_stable(d, d2, p2, n as nat, Seq::empty());
    } else if code == -22 {
        lemma_uleb_stable(d, d2, p1);
        let na = spec_uleb(d, p1)->Ok_0.0;
        let p2 = spec_uleb(d, p1)->Ok_0.1;
        lemma_slebs_stable(d, d2, p2, na as nat, Seq::empty());
        let p3 = spec_slebs(d, p2, na as nat, Seq::empty())->Ok_0.1;
        lemma_uleb_stable(d, d2, p3);
        let nr = spec_uleb(d, p3)->Ok_0.0;
        let p4 = spec_uleb(d, p3)->Ok_0.1;
        lemma_slebs_stable(d, d2, p4, nr as nat, Seq::empty());
        let p5 = spec_slebs(d, p4, nr as nat, Seq::empty())->Ok_0.1;
        if same_upto(d, d2, spec_entry(d, p)->Ok_0.1) {
            assert(d2[p5] == d[p5]);
        }
    } else if code == -23 {
        lemma_uleb_stable(d, d2, p1);
        let n = spec_uleb(d, p1)->Ok_0.0;
        let p2 = spec_uleb(d, p1)->Ok_0.1;
        lemma_methods_stable(d, d2, p2, n as nat);
    } else if code < -24 {
        lemma_uleb_stable(d, d2, p1);
    }
}

proof fn lemma_entries_stable(d: Seq<u8>, d2: Seq<u8>, p: int, n: nat, acc: Seq<SpecEntry>)
    requires
        0 <= p <= d.len(),
        spec_entries(d, p, n, acc) is Ok,
    ensures
        same_upto(d, d2, spec_entries(d, p, n, acc)->Ok_0.1) ==> spec_entries(d2, p, n, acc) == spec_entries(d, p, n, acc),
        spec_entries(d, p, n, acc)->Ok_0.1 <= d.len(),
        p <= spec_entries(d, p, n, acc)->Ok_0.1,
    decreases n,
{
    if n > 0 {
        let p1 = spec_entry(d, p)->Ok_0.1;
        let en = spec_entry(d, p)->Ok_0.0;
        lemma_entry_stable(d, d2, p);
        lemma_entries_stable(d, d2, p1, (n - 1) as nat, acc.push(en));
    }
}

proof fn lemma_primitive_stable(d: Seq<u8>, d2: Seq<u8>, p: int, t: i64)
    requires
        0 <= p <= d.len(),
        spec_skip_primitive(d, p, t) is Ok,
    ensures
        same_upto(d, d2, spec_skip_primitive(d, p, t)->Ok_0) ==> spec_skip_primitive(d2, p, t) == spec_skip_primitive(d, p, t),
        spec_skip_primitive(d, p, t)->Ok_0 <= d.len(),
        p <= spec_skip_primitive(d, p, t)->Ok_0,
{
    if t == -3 || t == -15 {
        lemma_uleb_stable(d, d2, p);
    } else if t == -4 {
        lemma_sleb_stable(d, d2, p);
    } else if t == -2 {
        if same_upto(d, d2, spec_skip_primitive(d, p, t)->Ok_0) {
            assert(d2[p] == d[p]);
        }
    } else if t == -24 {
        lemma_uleb_stable(d, d2, p + 1);
        if same_upto(d, d2, spec_skip_primitive(d, p, t)->Ok_0) {
            assert(d2[p] == d[p]);
        }
    }
}

proof fn lemma_value_stable(d: Seq<u8>, d2: Seq<u8>, p: int, t: i64, table: Seq<SpecEntry>, depth: int)
    requires
        0 <= p <= d.len(),
        spec_skip_value(d, p, t, table, depth) is Ok,
    ensures
        same_upto(d, d2, spec_skip_value(d, p, t, table, depth)->Ok_0) ==> spec_skip_value(d2, p, t, table, depth) == spec_skip_value(d, p, t, table, depth),
        spec_skip_value(d, p, t, table, depth)->Ok_0 <= d.len(),
        p <= spec_skip_value(d, p, t, table, depth)->Ok_0,
    decreases 1001 - depth, 3int, 0int,
{
    if depth <= 1000 {
        if t >= 0 {
            lemma_entry_value_stable(d, d2, p, table[t as int], table, depth);
        } else {
            lemma_primitive_stable(d, d2, p, t);
        }
    }
}

proof fn lemma_entry_value_stable(d: Seq<u8>, d2: Seq<u8>, p: int, en: SpecEntry, table: Seq<SpecEntry>, depth: int)
    requires
        0 <= p <= d.len(),
        spec_skip_entry(d, p, en, table, depth) is Ok,
    ensures
        same_upto(d, d2, spec_skip_entry(d, p, en, table, depth)->Ok_0) ==> spec_skip_entry(d2, p, en, table, depth) == spec_skip_entry(d, p, en, table, depth),
        spec_skip_entry(d, p, en, table, depth)->Ok_0 <= d.len(),
        p <= spec_skip_entry(d, p, en, table, depth)->Ok_0,
    decreases 1001 - depth, 2int, 0int,
{
    if depth <= 1000 {
        let q = spec_skip_entry(d, p, en, table, depth)->Ok_0;
        match en {
            SpecEntry::Opt(inner) => {
                if d[p] == 1 {
                    lemma_value_stable(d, d2, p + 1, inner, table, depth + 1);
                }
                if same_upto(d, d2, q) {
                    assert(d2[p] == d[p]);
                }
            },
            SpecEntry::Vec(inner) => {
                lemma_uleb_stable(d, d2, p);
                let count = spec_uleb(d, p)->Ok_0.0;
                let p1 = spec_uleb(d, p)->Ok_0.1;
                if inner != -5 {
                    lemma_items_stable(d, d2, p1, inner, table, depth + 1, count as nat);
                }
            },
            SpecEntry::Record(fields) => {
                lemma_seq_stable(d, d2, p, fields, table, depth + 1, 0);
            },
            SpecEntry::Variant(tags) => {
                lemma_uleb_stable(d, d2, p);
                let idx = spec_uleb(d, p)->Ok_0.0;
                let p1 = spec_uleb(d, p)->Ok_0.1;
                lemma_value_stable(d, d2, p1, tags[idx as int].1, table, depth + 1);
            },
            SpecEntry::Func => {
                let p2 = p + 2;
                lemma_uleb_stable(d, d2, p2);
                let plen = spec_uleb(d, p2)->Ok_0.0;
                let p3 = spec_uleb(d, p2)->Ok_0.1;
                let p4 = p3 + plen;
                lemma_uleb_stable(d, d2, p4);
                if same_upto(d, d2, q) {
                    assert(d2[p] == d[p]);
                    assert(d2[p + 1] == d[p + 1]);
                }
            },
            SpecEntry::Service => {
                lemma_uleb_stable(d, d2, p + 1);
                if same_upto(d, d2, q) {
                    assert(d2[p] == d[p]);
                }
            },
            SpecEntry::Future => {
                lemma_uleb_stable(d, d2, p);
                let p1 = spec_uleb(d, p)->Ok_0.1;
                lemma_uleb_stable(d, d2, p1);
            },
        }
    }
}

proof fn lemma_items_stable(d: Seq<u8>, d2: Seq<u8>, p: int, t: i64, table: Seq<SpecEntry>, depth: int, count: nat)
    requires
        0 <= p <= d.len(),
        spec_skip_items(d, p, t, table, depth, count) is Ok,
    ensures
        same_upto(d, d2, spec_skip_items(d, p, t, table, depth, count)->Ok_0) ==> spec_skip_items(d2, p, t, table, depth, count) == spec_skip_items(d, p, t, table, depth, count),
        spec_skip_items(d, p, t, table, depth, count)->Ok_0 <= d.len(),
        p <= spec_skip_items(d, p, t, table, depth, count)->Ok_0,
    decreases 1001 - depth, 4int, count,
{
    if count > 0 {
        let p1 = spec_skip_value(d, p, t, table, depth)->Ok_0;
        lemma_value_stable(d, d2, p, t, table, depth);
        lemma_items_stable(d, d2, p1, t, table, depth, (count - 1) as nat);
    }
}

proof fn lemma_seq_stable(d: Seq<u8>, d2: Seq<u8>, p: int, types: Seq<i64>, table: Seq<SpecEntry>, depth: int, i: nat)
    requires
        0 <= p <= d.len(),
        spec_skip_seq(d, p, types, table, depth, i) is Ok,
    ensures
        same_upto(d, d2, spec_skip_seq(d, p, types, table, depth, i)->Ok_0) ==> spec_skip_seq(d2, p, types, table, depth, i) == spec_skip_seq(d, p, types, table, depth, i),
        spec_skip_seq(d, p, types, table, depth, i)->Ok_0 <= d.len(),
        p <= spec_skip_seq(d, p, types, table, depth, i)->Ok_0,
    decreases 1001 - depth, 4int, types.len() - i,
{
    if i < types.len() {
        let p1 = spec_skip_value(d, p, types[i as int], table, depth)->Ok_0;
        lemma_value_stable(d, d2, p, types[i as int], table, depth);
        lemma_seq_stable(d, d2, p1, types, table, depth, i + 1);
    }
}

/// A complete frame keeps its size in any bytes that agree with it up to
/// its end; it ends after the magic and the two counts.
proof fn lemma_frame_stable(d: Seq<u8>, d2: Seq<u8>)
    requires
        spec_frame_size(d) is Ok,
    ensures
        same_upto(d, d2, spec_frame_size(d)->Ok_0) ==> spec_frame_size(d2) == spec_frame_size(d),
        6 <= spec_frame_size(d)->Ok_0 <= d.len(),
{
    reveal(spec_frame_size);
    let q = spec_frame_size(d)->Ok_0;
    lemma_uleb_stable(d, d2, 4);
    let m = spec_uleb(d, 4)->Ok_0.0;
    let p0 = spec_uleb(d, 4)->Ok_0.1;
    lemma_entries_stable(d, d2, p0, m as nat, Seq::empty());
    let table = spec_table(d, 4)->Ok_0.0;
    let p1 = spec_table(d, 4)->Ok_0.1;
    lemma_uleb_stable(d, d2, p1);
    let n = spec_uleb(d, p1)->Ok_0.0;
    let p2 = spec_uleb(d, p1)->Ok_0.1;
    lemma_slebs_stable(d, d2, p2, n as nat, Seq::empty());
    let args = spec_slebs(d, p2, n as nat, Seq::empty())->Ok_0.0;
    let p3 = spec_slebs(d, p2, n as nat, Seq::empty())->Ok_0.1;
    lemma_seq_stable(d, d2, p3, args, table, 0, 0);
    assert(q == spec_skip_seq(d, p3, args, table, 0, 0)->Ok_0);
    if same_upto(d, d2, q) {
        assert(d2.subrange(0, 4) =~= d.subrange(0, 4));
    }
}

/// Frames are self-delimiting: a complete frame keeps its size whatever
/// bytes follow it, so frames written back to back are split exactly where
/// each one ends.
pub proof fn lemma_frame_size_ignores_following_bytes(d: Seq<u8>, rest: Seq<u8>)
    requires
        spec_frame_size(d) is Ok,
    ensures
        spec_frame_size(d.subrange(0, spec_frame_size(d)->Ok_0) + rest) == spec_frame_size(d),
        4 <= spec_frame_size(d)->Ok_0 <= d.len(),
{
    let q = spec_frame_size(d)->Ok_0;
    let d2 = d.subrange(0, q) + rest;
    lemma_frame_stable(d, d2);
    assert forall|i: int| 0 <= i < q implies d[i] == d2[i] by {
        assert(d2[i] == d.subrange(0, q)[i]);
    }
    assert(same_upto(d, d2, q));
}

/// No frame is shorter than six bytes (the magic, then a type count and an
/// argument count of one byte each), and every proper prefix of a complete
/// frame is refused: a cut frame is never taken for a shorter one.
pub proof fn lemma_cut_frames_are_refused(d: Seq<u8>, m: int)
    requires
        spec_frame_size(d) is Ok,
        0 <= m < spec_frame_size(d)->Ok_0,
    ensures
        6 <= spec_frame_size(d)->Ok_0,
        spec_frame_size(d.subrange(0, m)) is Err,
{
    lemma_frame_stable(d, d);
    let c = d.subrange(0, m);
    if spec_frame_size(c) is Ok {
        lemma_frame_stable(c, d);
        let q2 = spec_frame_size(c)->Ok_0;
        assert forall|i: int| 0 <= i < q2 implies c[i] == d[i] by {}
        assert(same_upto(c, d, q2));
    }
}

/// A blob (a vector of `nat8`) is skipped as a run of bytes; that gives
/// the same result as skipping its `nat8` items one by one, below the depth
/// limit.
pub proof fn lemma_blob_skips_as_bytes(d: Seq<u8>, p: int, table: Seq<SpecEntry>, depth: int, count: nat)
    requires
        0 <= p <= d.len(),
        depth <= 1000,
    ensures
        spec_skip_items(d, p, -5i64, table, depth, count) == spec_skip(d, p, count as int),
    decreases count,
{
    if count > 0 {
        assert(spec_skip_value(d, p, -5i64, table, depth) == spec_skip(d, p, 1));
        if p + 1 <= d.len() {
            lemma_blob_skips_as_bytes(d, p + 1, table, depth, (count - 1) as nat);
        }
    }
}

/// Skipping a value of a blob type (`vec nat8`) reads its count and then
/// gives the same result as skipping that many `nat8` values one by one,
/// below the depth limit.
pub proof fn lemma_blob_entry_skips_items(d: Seq<u8>, p: int, table: Seq<SpecEntry>, depth: int)
    requires
        0 <= p <= d.len(),
        depth < 1000,
    ensures
        spec_skip_entry(d, p, SpecEntry::Vec(-5i64), table, depth) == match spec_uleb(d, p) {
            Err(e) => Err(e),
            Ok((count, p1)) => spec_skip_items(d, p1, -5i64, table, depth + 1, count as nat),
        },
{
    if spec_uleb(d, p) is Ok {
        lemma_uleb_stable(d, d, p);
        let (count, p1) = spec_uleb(d, p)->Ok_0;
        lemma_blob_skips_as_bytes(d, p1, table, depth + 1, count as nat);
    }
}

/// Every fixed-size primitive value is skipped by exactly its Candid wire
/// width: `nat8`/`int8` (codes -5, -9) 1 byte, `nat16`/`int16` (-6, -10) 2,
/// `nat32`/`int32`/`float32` (-7, -11, -13) 4, `nat64`/`int64`/`float64`
/// (-8, -12, -14) 8; when fewer bytes are left the frame ends too soon.
pub proof fn lemma_fixed_width_primitives(d: Seq<u8>, p: int, t: i64, table: Seq<SpecEntry>, depth: int, w: int)
    requires
        0 <= p <= d.len(),
        depth <= 1000,
        (t == -5 || t == -9) ==> w == 1,
        (t == -6 || t == -10) ==> w == 2,
        (t == -7 || t == -11 || t == -13) ==> w == 4,
        (t == -8 || t == -12 || t == -14) ==> w == 8,
        -14 <= t <= -5,
    ensures
        spec_skip_value(d, p, t, table, depth) == if p + w <= d.len() {
            Ok::<int, FrameError>(p + w)
        } else {
            Err::<int, FrameError>(FrameError::UnexpectedEnd)
        },
{
}

/// The other primitive values: `null` and `reserved` take no byte; a
/// `bool` is one byte that is 0 or 1; a `nat` or an `int` is one LEB128
/// number; a `text` is a LEB128 length and that many bytes; a principal is
/// the byte 1, a LEB128 length and that many bytes; `empty` has no value.
pub proof fn lemma_other_primitives(d: Seq<u8>, p: int, table: Seq<SpecEntry>, depth: int)
    requires
        0 <= p <= d.len(),
        depth <= 1000,
    ensures
        spec_skip_value(d, p, -1i64, table, depth) == Ok::<int, FrameError>(p),
        spec_skip_value(d, p, -16i64, table, depth) == Ok::<int, FrameError>(p),
        spec_skip_value(d, p, -2i64, table, depth) == if p < d.len() && d[p] <= 1 {
            Ok::<int, FrameError>(p + 1)
        } else if p < d.len() {
            Err::<int, FrameError>(FrameError::InvalidBool(d[p]))
        } else {
            Err::<int, FrameError>(FrameError::UnexpectedEnd)
        },
        spec_skip_value(d, p, -3i64, table, depth) == match spec_uleb(d, p) {
            Ok((_, q)) => Ok::<int, FrameError>(q),
            Err(e) => Err(e),
        },
        spec_skip_value(d, p, -4i64, table, depth) == match spec_sleb(d, p) {
            Ok((_, q)) => Ok::<int, FrameError>(q),
            Err(e) => Err(e),
        },
        spec_skip_value(d, p, -15i64, table, depth) == match spec_uleb(d, p) {
            Ok((len, q)) => if q + len <= d.len() {
                Ok::<int, FrameError>(q + len)
            } else {
                Err(FrameError::UnexpectedEnd)
            },
            Err(e) => Err(e),
        },
        spec_skip_value(d, p, -24i64, table, depth) == if p >= d.len() {
            Err::<int, FrameError>(FrameError::UnexpectedEnd)
        } else if d[p] != 1 {
            Err::<int, FrameError>(FrameError::OpaquePrincipal)
        } else {
            match spec_uleb(d, p + 1) {
                Ok((len, q)) => if q + len <= d.len() {
                    Ok::<int, FrameError>(q + len)
                } else {
                    Err(FrameError::UnexpectedEnd)
                },
                Err(e) => Err(e),
            }
        },
        spec_skip_value(d, p, -17i64, table, depth) == Err::<int, FrameError>(FrameError::EmptyTypeValue),
{
}

/// The message that describes `e`.
pub open spec fn frame_error_text(e: FrameError) -> Seq<char> {
    match e {
        FrameError::MissingMagic => "not a DIDL binary frame (missing magic bytes)"@,
        FrameError::UnexpectedEnd => "unexpected end of binary Candid frame"@,
        FrameError::LebOverflow => "LEB128 overflow"@,
        FrameError::SlebOverflow => "SLEB128 overflow"@,
        FrameError::UnexpectedOpcode(c) => "unexpected type opcode "@ + signed_decimal(c as int)
            + " in type table"@,
        FrameError::DepthLimit => "recursion depth limit exceeded while parsing binary Candid frame"@,
        FrameError::TypeIndexOutOfRange(i, n) => "type table index "@ + decimal(i as nat)
            + " out of range (table len "@ + decimal(n as nat) + ")"@,
        FrameError::EmptyTypeValue => "empty type cannot have a wire value"@,
        FrameError::OpaquePrincipal => "opaque principal reference not supported"@,
        FrameError::UnknownPrimitive(c) => "unknown primitive type code "@ + signed_decimal(c as int)
            + " in value"@,
        FrameError::VariantIndexOutOfRange(i, n) => "variant index "@ + decimal(i as nat)
            + " out of range (num tags "@ + decimal(n as nat) + ")"@,
        FrameError::OpaqueFunc => "opaque function reference not supported"@,
        FrameError::OpaqueFuncPrincipal => "opaque principal in function reference"@,
        FrameError::OpaqueService => "opaque service reference not supported"@,
        FrameError::InvalidBool(b) => "invalid bool value "@ + decimal(b as nat) + " in value"@,
        FrameError::InvalidOptFlag(b) => "invalid opt presence flag "@ + decimal(b as nat) + " in value"@,
    }
}

impl FrameError {
    /// The message that describes this error.
    pub fn message(&self) -> (r: String)
        ensures
            r@ == frame_error_text(*self),
    {
        let mut s = String::new();
        match self {
            FrameError::MissingMagic => s.push_str("not a DIDL binary frame (missing magic bytes)"),
            FrameError::UnexpectedEnd => s.push_str("unexpected end of binary Candid frame"),
            FrameError::LebOverflow => s.push_str("LEB128 overflow"),
            FrameError::SlebOverflow => s.push_str("SLEB128 overflow"),
            FrameError::UnexpectedOpcode(c) => {
                s.push_str("unexpected type opcode ");
                push_signed_decimal(&mut s, *c);
                s.push_str(" in type table");
            },
            FrameError::DepthLimit => s.push_str(
                "recursion depth limit exceeded while parsing binary Candid frame",
            ),
            FrameError::TypeIndexOutOfRange(i, n) => {
                s.push_str("type table index ");
                push_decimal(&mut s, *i);
                s.push_str(" out of range (table len ");
                push_decimal(&mut s, *n as u64);
                s.push_str(")");
            },
            FrameError::EmptyTypeValue => s.push_str("empty type cannot have a wire value"),
            FrameError::OpaquePrincipal => s.push_str("opaque principal reference not supported"),
            FrameError::UnknownPrimitive(c) => {
                s.push_str("unknown primitive type code ");
                push_signed_decimal(&mut s, *c);
                s.push_str(" in value");
            },
            FrameError::VariantIndexOutOfRange(i, n) => {
                s.push_str("variant index ");
                push_decimal(&mut s, *i);
                s.push_str(" out of range (num tags ");
                push_decimal(&mut s, *n as u64);
                s.push_str(")");
            },
            FrameError::OpaqueFunc => s.push_str("opaque function reference not supported"),
            FrameError::OpaqueFuncPrincipal => s.push_str("opaque principal in function reference"),
            FrameError::OpaqueService => s.push_str("opaque service reference not supported"),
            FrameError::InvalidBool(b) => {
                s.push_str("invalid bool value ");
                push_decimal(&mut s, *b as u64);
                s.push_str(" in value");
            },
            FrameError::InvalidOptFlag(b) => {
                s.push_str("invalid opt presence flag ");
                push_decimal(&mut s, *b as u64);
                s.push_str(" in value");
            },
        }
        assert(s@ =~= frame_error_text(*self));
        s
    }
}
} // verus!
