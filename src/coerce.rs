use vstd::prelude::*;
use crate::error::Error;
use crate::heap::Object;
use crate::lua::{Lua, objects_grow};
use crate::value::{RawValue, LuaString, LuaRef, Value, value_kind_name};

verus! {

/// The decimal digits of `n`.
pub open spec fn digits(n: nat) -> Seq<u8>
    decreases n,
{
    if n < 10 {
        seq![(48 + n) as u8]
    } else {
        digits(n / 10).push((48 + n % 10) as u8)
    }
}

/// How an integer reads in decimal, with a leading `-` when negative.
pub open spec fn decimal(i: int) -> Seq<u8> {
    if i < 0 {
        seq![45u8] + digits((-i) as nat)
    } else {
        digits(i as nat)
    }
}

/// Whether byte `b` is white space.
pub open spec fn is_space(b: u8) -> bool {
    b == 32 || (9 <= b && b <= 13)
}

/// `c` without leading white space.
pub open spec fn trim_start(c: Seq<u8>) -> Seq<u8>
    decreases c.len(),
{
    if c.len() > 0 && is_space(c[0]) {
        trim_start(c.drop_first())
    } else {
        c
    }
}

/// `c` without trailing white space.
pub open spec fn trim_end(c: Seq<u8>) -> Seq<u8>
    decreases c.len(),
{
    if c.len() > 0 && is_space(c.last()) {
        trim_end(c.drop_last())
    } else {
        c
    }
}

/// Whether every byte of `d` is a decimal digit.
pub open spec fn all_digits(d: Seq<u8>) -> bool {
    forall|j: int| 0 <= j < d.len() ==> 48 <= #[trigger] d[j] <= 57
}

/// The number that the decimal digits `d` spell.
pub open spec fn digits_value(d: Seq<u8>) -> nat
    decreases d.len(),
{
    if d.len() == 0 {
        0
    } else {
        digits_value(d.drop_last()) * 10 + (d.last() - 48) as nat
    }
}

/// Whether byte `b` is a hexadecimal digit.
pub open spec fn is_hex(b: u8) -> bool {
    (48 <= b && b <= 57) || (65 <= b && b <= 70) || (97 <= b && b <= 102)
}

/// The value of hexadecimal digit `b`.
pub open spec fn hex_digit(b: u8) -> nat {
    if b <= 57 {
        (b - 48) as nat
    } else if b <= 70 {
        (b - 55) as nat
    } else {
        (b - 87) as nat
    }
}

/// Whether every byte of `h` is a hexadecimal digit.
pub open spec fn all_hex(h: Seq<u8>) -> bool {
    forall|j: int| 0 <= j < h.len() ==> is_hex(#[trigger] h[j])
}

/// The number that the hexadecimal digits `h` spell.
pub open spec fn hex_value(h: Seq<u8>) -> nat
    decreases h.len(),
{
    if h.len() == 0 {
        0
    } else {
        hex_value(h.drop_last()) * 16 + hex_digit(h.last())
    }
}

/// 2 to the 64th.
pub open spec fn modulus() -> nat {
    0x1_0000_0000_0000_0000
}

/// The signed 64-bit integer whose two's-complement bits are `u`.
pub open spec fn signed_of(u: nat) -> int {
    if u >= 0x8000_0000_0000_0000 {
        u - modulus()
    } else {
        u as int
    }
}

/// Whether every byte of `z` is the digit zero.
pub open spec fn all_zeros(z: Seq<u8>) -> bool {
    forall|j: int| 0 <= j < z.len() ==> #[trigger] z[j] == 48
}

/// Whether `d` is a whole number in float notation with its point at `p`:
/// digits, a point, and only zeros after it, not the point alone.
pub open spec fn point_form(d: Seq<u8>, p: int) -> bool {
    &&& 0 <= p < d.len()
    &&& d[p] == 46
    &&& all_digits(d.subrange(0, p))
    &&& all_zeros(d.subrange(p + 1, d.len() as int))
    &&& d.len() > 1
}

/// Whether `d`, after the sign, is a hexadecimal integer.
pub open spec fn hex_form(d: Seq<u8>) -> bool {
    d.len() >= 2 && d[0] == 48 && (d[1] == 120 || d[1] == 88)
}

/// The largest magnitude up to which every integer is exact in binary
/// floating point.
pub open spec fn exact_float_limit() -> nat {
    0x20_0000_0000_0000
}

/// Whether byte `b` may stand in a numeral: a hexadecimal digit (which takes
/// in the exponent marks `e` and `E`), a point, a sign, or one of `x`, `X`,
/// `p`, `P`.
pub open spec fn numeral_byte(b: u8) -> bool {
    is_hex(b) || b == 46 || b == 43 || b == 45 || b == 120 || b == 88 || b == 112 || b == 80
}

/// Whether `c` may be a numeral: once its white space is trimmed, it is not
/// empty and every byte may stand in a numeral. A string that is not so is
/// no numeral, and converts to no number at all.
pub open spec fn numeral_like(c: Seq<u8>) -> bool {
    let t = trim_end(trim_start(c));
    t.len() > 0 && forall|j: int| 0 <= j < t.len() ==> numeral_byte(#[trigger] t[j])
}

/// `t` without a leading sign.
pub open spec fn unsigned_part(t: Seq<u8>) -> Seq<u8> {
    if t.len() > 0 && (t[0] == 45 || t[0] == 43) {
        t.drop_first()
    } else {
        t
    }
}

/// The integer that this library computes for string `c`, for the numerals
/// whose integer value needs no floating-point rounding: optional white space
/// around an optional sign and
///   - hexadecimal digits after `0x` or `0X`, taken modulo 2 to the 64th as the
///     interpreter's unsigned arithmetic does;
///   - decimal digits whose value lies in the 64-bit range;
///   - a whole number in point notation (digits, a point, only zeros), whose
///     magnitude is at most 2 to the 53rd, where binary floating point is exact.
/// `None` for every other string. Among those are numerals whose conversion
/// goes through binary floating point (exponents, hexadecimal fractions, long
/// decimals), which this library does not hold: of them it promises nothing.
pub open spec fn parse_int(c: Seq<u8>) -> Option<int> {
    let t = trim_end(trim_start(c));
    let neg = t.len() > 0 && t[0] == 45;
    let d = unsigned_part(t);
    if hex_form(d) {
        let h = d.subrange(2, d.len() as int);
        let u = hex_value(h) % modulus();
        if h.len() > 0 && all_hex(h) {
            Some(signed_of(if neg { ((modulus() - u) as int % modulus() as int) as nat } else { u }))
        } else {
            None
        }
    } else if d.len() > 0 && all_digits(d) {
        let v: int = if neg { -(digits_value(d) as int) } else { digits_value(d) as int };
        if i64::MIN <= v <= i64::MAX {
            Some(v)
        } else {
            None
        }
    } else if exists|p: int| point_form(d, p) {
        let p = choose|p: int| point_form(d, p);
        let v = digits_value(d.subrange(0, p));
        if v <= exact_float_limit() {
            Some(if neg { -(v as int) } else { v as int })
        } else {
            None
        }
    } else {
        None
    }
}

/// Appends the decimal digits of `n` to `out`.
fn push_digits(out: &mut Vec<u8>, n: u64)
    ensures
        final(out)@ == old(out)@ + digits(n as nat),
    decreases n,
{
    if n >= 10 {
        push_digits(out, n / 10);
    }
    out.push((48 + n % 10) as u8);
    proof {
        if n < 10 {
            assert(out@ =~= old(out)@ + digits(n as nat));
        } else {
            assert(out@ =~= old(out)@ + digits(n as nat));
        }
    }
}

/// How `i` reads in decimal.
pub fn decimal_bytes(i: i64) -> (r: Vec<u8>)
    ensures
        r@ == decimal(i as int),
{
    let mut out: Vec<u8> = Vec::new();
    if i < 0 {
        out.push(45u8);
        let m: u64 = ((-(i + 1)) as u64) + 1;
        push_digits(&mut out, m);
        assert(out@ =~= seq![45u8] + digits((-i) as nat));
    } else {
        push_digits(&mut out, i as u64);
        assert(out@ =~= digits(i as nat));
    }
    out
}

proof fn lemma_digits_value_prefix(d: Seq<u8>, k: int)
    requires
        0 <= k <= d.len(),
        all_digits(d),
    ensures
        digits_value(d.subrange(0, k)) <= digits_value(d),
    decreases d.len() - k,
{
    if k < d.len() {
        lemma_digits_value_prefix(d, k + 1);
        let p = d.subrange(0, k + 1);
        assert(p.drop_last() =~= d.subrange(0, k));
        assert(48 <= p.last());
    } else {
        assert(d.subrange(0, k) =~= d);
    }
}

/// A string that cannot be a numeral has no integer value here.
proof fn lemma_no_numeral_no_value(c: Seq<u8>)
    requires
        !numeral_like(c),
    ensures
        parse_int(c) is None,
{
    let t = trim_end(trim_start(c));
    let d = unsigned_part(t);
    if t.len() > 0 {
        let j = choose|j: int| 0 <= j < t.len() && !numeral_byte(t[j]);
        let off: int = if t.len() > 0 && (t[0] == 45 || t[0] == 43) { 1 } else { 0 };
        assert(j >= off);
        let jj = j - off;
        assert(d[jj] == t[j]);
        if hex_form(d) {
            assert(jj >= 2);
            assert(d.subrange(2, d.len() as int)[jj - 2] == d[jj]);
        }
        assert(!all_digits(d));
        assert forall|p: int| !point_form(d, p) by {
            if point_form(d, p) {
                if jj < p {
                    assert(d.subrange(0, p)[jj] == d[jj]);
                } else if jj > p {
                    assert(d.subrange(p + 1, d.len() as int)[jj - p - 1] == d[jj]);
                }
            }
        }
    } else {
        assert(d.len() == 0);
        assert(forall|p: int| !point_form(d, p));
    }
}

proof fn lemma_point_unique(d: Seq<u8>, p: int, q: int)
    requires
        point_form(d, p),
        point_form(d, q),
    ensures
        p == q,
{
    if p < q {
        assert(d.subrange(0, q)[p] == d[p]);
    } else if q < p {
        assert(d.subrange(0, p)[q] == d[q]);
    }
}

/// Where the first byte that is not a decimal digit stands at `j`, a point
/// form can only have its point there.
proof fn lemma_point_at_first_non_digit(d: Seq<u8>, j: int, p: int)
    requires
        0 <= j < d.len(),
        all_digits(d.subrange(0, j)),
        !(48 <= d[j] <= 57),
        point_form(d, p),
    ensures
        p == j,
{
    if p < j {
        assert(d.subrange(0, j)[p] == d[p]);
    } else if j < p {
        assert(d.subrange(0, p)[j] == d[j]);
    }
}

proof fn lemma_hex_step(x: int, h: int)
    requires
        x >= 0,
        0 <= h < 16,
    ensures
        ((x % (modulus() as int)) * 16 + h) % (modulus() as int) == (x * 16 + h) % (modulus() as int),
{
    let m = modulus() as int;
    vstd::arithmetic::div_mod::lemma_mul_mod_noop_left(x, 16, m);
    vstd::arithmetic::div_mod::lemma_add_mod_noop((x % m) * 16, h, m);
    vstd::arithmetic::div_mod::lemma_add_mod_noop(x * 16, h, m);
}

/// The signed integer with two's-complement bits `u`.
fn to_signed(u: u64) -> (r: i64)
    ensures
        r as int == signed_of(u as nat),
{
    if u < 0x8000_0000_0000_0000u64 {
        u as i64
    } else if u == 0x8000_0000_0000_0000u64 {
        i64::MIN
    } else {
        let m: u64 = 0xFFFF_FFFF_FFFF_FFFFu64 - u + 1;
        -(m as i64)
    }
}

/// The value of hexadecimal digits `c[k..b]`, modulo 2 to the 64th.
fn hex_digits(c: &Vec<u8>, k: usize, b: usize) -> (r: Option<u64>)
    requires
        k <= b <= c@.len(),
    ensures
        r is Some <==> all_hex(c@.subrange(k as int, b as int)),
        r is Some ==> r.unwrap() as nat == hex_value(c@.subrange(k as int, b as int)) % modulus(),
{
    let ghost h = c@.subrange(k as int, b as int);
    let mut acc: u64 = 0;
    let mut j: usize = k;
    assert(h.subrange(0, 0) =~= Seq::<u8>::empty());
    while j < b
        invariant
            k <= j <= b,
            b <= c@.len(),
            h == c@.subrange(k as int, b as int),
            acc as nat == hex_value(h.subrange(0, j - k)) % modulus(),
            all_hex(h.subrange(0, j - k)),
        decreases b - j,
    {
        let ch = c[j];
        if !((48 <= ch && ch <= 57) || (65 <= ch && ch <= 70) || (97 <= ch && ch <= 102)) {
            assert(h[j - k] == ch);
            return None;
        }
        let dig: u64 = if ch <= 57 { (ch - 48) as u64 } else if ch <= 70 { (ch - 55) as u64 } else { (ch - 87) as u64 };
        let ghost p = h.subrange(0, j - k + 1);
        assert(p.drop_last() =~= h.subrange(0, j - k));
        assert(p.last() == ch);
        proof {
            lemma_hex_step(hex_value(h.subrange(0, j - k)) as int, dig as int);
        }
        let wide: u128 = (acc as u128) * 16 + (dig as u128);
        acc = (wide % 0x1_0000_0000_0000_0000u128) as u64;
        j = j + 1;
        proof {
            assert(h.subrange(0, j - k) =~= p);
        }
    }
    assert(h.subrange(0, j - k) =~= h);
    Some(acc)
}

/// Whether every byte of `c[from..to]` is the digit zero.
fn all_zero_bytes(c: &Vec<u8>, from: usize, to: usize) -> (r: bool)
    requires
        from <= to <= c@.len(),
    ensures
        r == all_zeros(c@.subrange(from as int, to as int)),
{
    let mut z: usize = from;
    while z < to
        invariant
            from <= z <= to,
            to <= c@.len(),
            forall|i: int| from <= i < z ==> c@[i] == 48,
        decreases to - z,
    {
        if c[z] != 48 {
            assert(c@.subrange(from as int, to as int)[z - from] == c@[z as int]);
            return false;
        }
        z = z + 1;
    }
    assert forall|i: int| 0 <= i < c@.subrange(from as int, to as int).len()
        implies #[trigger] c@.subrange(from as int, to as int)[i] == 48 by {
        assert(c@.subrange(from as int, to as int)[i] == c@[from + i]);
    }
    true
}

/// The integer that string `c` converts to, as `parse_int` states it.
#[verifier::rlimit(60)]
pub fn parse_integer(c: &Vec<u8>) -> (r: Option<i64>)
    ensures
        r is Some <==> parse_int(c@) is Some,
        r is Some ==> r.unwrap() as int == parse_int(c@).unwrap(),
{
    let len = c.len();
    let mut a: usize = 0;
    assert(c@.subrange(0, len as int) =~= c@);
    while a < len && (c[a] == 32 || (9 <= c[a] && c[a] <= 13))
        invariant
            a <= len,
            len == c@.len(),
            trim_start(c@) == trim_start(c@.subrange(a as int, len as int)),
        decreases len - a,
    {
        assert(c@.subrange(a as int, len as int).drop_first() =~= c@.subrange(a + 1, len as int));
        a = a + 1;
    }
    let mut b: usize = len;
    let ghost s = c@.subrange(a as int, len as int);
    assert(trim_start(s) == s);
    assert(s.subrange(0, (b - a) as int) =~= s);
    while b > a && (c[b - 1] == 32 || (9 <= c[b - 1] && c[b - 1] <= 13))
        invariant
            a <= b <= len,
            len == c@.len(),
            s == c@.subrange(a as int, len as int),
            trim_end(s) == trim_end(c@.subrange(a as int, b as int)),
        decreases b - a,
    {
        assert(c@.subrange(a as int, b as int).drop_last() =~= c@.subrange(a as int, b - 1));
        b = b - 1;
    }
    let ghost t = c@.subrange(a as int, b as int);
    assert(trim_end(t) == t);
    assert(trim_end(trim_start(c@)) == t);
    let mut k: usize = a;
    let mut neg = false;
    if k < b && (c[k] == 45 || c[k] == 43) {
        neg = c[k] == 45;
        k = k + 1;
    }
    let ghost d = c@.subrange(k as int, b as int);
    assert(d =~= unsigned_part(t));
    assert(neg == (t.len() > 0 && t[0] == 45));
    if b - k >= 2 && c[k] == 48 && (c[k + 1] == 120 || c[k + 1] == 88) {
        assert(hex_form(d));
        if b - k == 2 {
            return None;
        }
        assert(c@.subrange(k + 2, b as int) =~= d.subrange(2, d.len() as int));
        let u = match hex_digits(c, k + 2, b) {
            Some(u) => u,
            None => return None,
        };
        let bits: u64 = if neg { if u == 0 { 0 } else { 0xFFFF_FFFF_FFFF_FFFFu64 - u + 1 } } else { u };
        proof {
            if neg {
                if u == 0 {
                    assert(((modulus() - 0) as int % modulus() as int) == 0);
                } else {
                    assert(((modulus() - u) as int % modulus() as int) == (modulus() - u) as int);
                }
            }
        }
        return Some(to_signed(bits));
    }
    assert(!hex_form(d));
    let limit: u64 = if neg { 9223372036854775808u64 } else { 9223372036854775807u64 };
    let mut acc: u64 = 0;
    let mut j: usize = k;
    assert(d.subrange(0, 0) =~= Seq::<u8>::empty());
    while j < b && 48 <= c[j] && c[j] <= 57
        invariant
            k <= j <= b,
            b <= len,
            len == c@.len(),
            d == c@.subrange(k as int, b as int),
            acc as nat == digits_value(d.subrange(0, j - k)),
            acc <= limit,
            limit == if neg { 9223372036854775808u64 } else { 9223372036854775807u64 },
            neg == (t.len() > 0 && t[0] == 45),
            t == trim_end(trim_start(c@)),
            d == unsigned_part(t),
            !hex_form(d),
            all_digits(d.subrange(0, j - k)),
        decreases b - j,
    {
        let ch = c[j];
        let dig = (ch - 48) as u64;
        let ghost p = d.subrange(0, j - k + 1);
        assert(p.drop_last() =~= d.subrange(0, j - k));
        assert(p.last() == ch);
        if acc > (limit - dig) / 10 {
            proof {
                assert(digits_value(p) == acc * 10 + dig);
                assert(all_digits(p));
                assert(digits_value(p) > limit) by (nonlinear_arith)
                    requires acc > (limit - dig) / 10, digits_value(p) == acc * 10 + dig, dig <= 9, dig <= limit;
                if all_digits(d) {
                    lemma_digits_value_prefix(d, j - k + 1);
                }
                if exists|q: int| point_form(d, q) {
                    let q = choose|q: int| point_form(d, q);
                    assert(q >= j - k + 1) by {
                        if q <= j - k {
                            assert(p[q] == d[q]);
                        }
                    }
                    assert(d.subrange(0, q).subrange(0, j - k + 1) =~= p);
                    lemma_digits_value_prefix(d.subrange(0, q), j - k + 1);
                }
            }
            return None;
        }
        proof {
            assert((acc * 10 + dig) <= limit) by (nonlinear_arith)
                requires acc <= (limit - dig) / 10, dig <= 9, dig <= limit;
        }
        acc = acc * 10 + dig;
        j = j + 1;
        proof {
            assert(d.subrange(0, j - k) =~= p);
        }
    }
    if j == b {
        assert(d.subrange(0, j - k) =~= d);
        if k == b {
            assert(forall|q: int| !point_form(d, q));
            return None;
        }
        if neg {
            if acc == 9223372036854775808u64 {
                return Some(i64::MIN);
            } else {
                return Some(-(acc as i64));
            }
        } else {
            return Some(acc as i64);
        }
    }
    let pj = j - k;
    assert(d[pj as int] == c[j as int]);
    assert(!all_digits(d));
    if c[j] != 46 {
        proof {
            assert forall|q: int| !point_form(d, q) by {
                if point_form(d, q) {
                    lemma_point_at_first_non_digit(d, pj as int, q);
                }
            }
        }
        return None;
    }
    let zeros = all_zero_bytes(c, j + 1, b);
    assert(c@.subrange(j + 1, b as int) =~= d.subrange(pj + 1, d.len() as int));
    if !zeros {
        proof {
            assert forall|q: int| !point_form(d, q) by {
                if point_form(d, q) {
                    lemma_point_at_first_non_digit(d, pj as int, q);
                }
            }
        }
        return None;
    }
    if b - k == 1 {
        assert(forall|q: int| !point_form(d, q));
        return None;
    }
    assert(point_form(d, pj as int));
    proof {
        let q = choose|q: int| point_form(d, q);
        lemma_point_unique(d, pj as int, q);
    }
    if acc > 0x20_0000_0000_0000u64 {
        return None;
    }
    if neg {
        Some(-(acc as i64))
    } else {
        Some(acc as i64)
    }
}

impl Lua {
    /// Drops a host value: a handle it holds releases its slot.
    pub fn release_value(&mut self, v: Value)
        requires
            old(self).wf(),
        ensures
            final(self).wf(),
            final(self).registry@ == old(self).released(v),
            final(self).objects@ == old(self).objects@,
            final(self).stack@ == old(self).stack@,
            final(self).same_bookkeeping(*old(self)),
    {
        match v {
            Value::String(s) => self.release_ref(s.0),
            Value::Table(t) => self.release_ref(t.0),
            Value::Function(f) => self.release_ref(f.0),
            Value::Thread(t) => self.release_ref(t.0),
            Value::UserData(u) => self.release_ref(u.0),
            _ => {},
        }
    }

    /// The pinned values once the handle in `v`, if any, is dropped.
    pub open spec fn released(&self, v: Value) -> Map<int, RawValue> {
        match v.handle() {
            Some(h) => if self.releases(h) {
                self.registry@.remove(h.registry_id as int)
            } else {
                self.registry@
            },
            None => self.registry@,
        }
    }

    /// Coerces `v` to a string: a string is returned as it is, an integer is
    /// written in decimal; anything else fails with a conversion error.
    pub fn coerce_string(&mut self, v: Value) -> (r: Result<LuaString, Error>)
        requires
            old(self).wf(),
            old(self).room(4),
        ensures
            final(self).wf(),
            v is String ==> r == Ok::<LuaString, Error>(v->String_0) && *final(self) == *old(self),
            v is Integer ==> {
                &&& r is Ok
                &&& final(self).string_of(r->Ok_0.0) == Some(decimal(v->Integer_0 as int))
                &&& r->Ok_0.0.main_id == old(self).main_id
                &&& !old(self).registry.live(r->Ok_0.0.registry_id as int)
                &&& final(self).registry@.remove(r->Ok_0.0.registry_id as int) == old(self).registry@
                &&& objects_grow(old(self).objects@, final(self).objects@)
            },
            !(v is String) && !(v is Integer) ==> {
                &&& r is Err
                &&& (r->Err_0 matches Error::FromLuaConversionError { from, to, message } && from@ == value_kind_name(v) && to@ == "String"@
                    && message is Some && message.unwrap()@ == "expected string or number"@)
                &&& final(self).registry@ == old(self).released(v)
                &&& final(self).objects@ == old(self).objects@
            },
            final(self).stack@ == old(self).stack@,
            final(self).same_bookkeeping(*old(self)),
    {
        match v {
            Value::String(s) => Ok(s),
            Value::Integer(i) => {
                self.check_stack(4);
                let o = self.intern(decimal_bytes(i));
                self.push_raw(RawValue::Str(o));
                let r = self.pop_ref();
                proof {
                    assert(self.stack@ =~= old(self).stack@);
                    assert(self.registry@.remove(r.registry_id as int) =~= old(self).registry@);
                }
                Ok(LuaString(r))
            },
            other => {
                let from = other.kind_name();
                self.release_value(other);
                Err(Error::FromLuaConversionError { from, to: "String", message: Some("expected string or number") })
            },
        }
    }

    /// Coerces `v` to an integer: an integer is returned as it is; a string
    /// converts to the value `parse_int` gives it, and a string that is no
    /// numeral fails, as does any other value, with a conversion error (a
    /// string handle of another root with `ForeignValue`). For a numeral whose
    /// value needs floating-point rounding nothing is promised; this
    /// implementation refuses it.
    pub fn coerce_integer(&mut self, v: Value) -> (r: Result<i64, Error>)
        requires
            old(self).wf(),
        ensures
            final(self).wf(),
            v is Integer ==> r == Ok::<i64, Error>(v->Integer_0),
            v is String && v->String_0.0.main_id != old(self).main_id ==> r is Err && r->Err_0 is ForeignValue,
            v is String && v->String_0.0.main_id == old(self).main_id ==> ({
                let parsed = match old(self).string_of(v->String_0.0) {
                    Some(c) => parse_int(c),
                    None => None,
                };
                &&& parsed is Some ==> r is Ok && r->Ok_0 as int == parsed.unwrap()
                &&& (old(self).string_of(v->String_0.0) is None
                    || !numeral_like(old(self).string_of(v->String_0.0).unwrap())) ==> r is Err
            }),
            !(v is Integer) && !(v is String) ==> r is Err,
            r is Err && !(r->Err_0 is ForeignValue) ==> (r->Err_0 matches Error::FromLuaConversionError { from, to, message }
                && from@ == value_kind_name(v) && to@ == "integer"@ && message is None),
            final(self).registry@ == old(self).released(v),
            final(self).objects@ == old(self).objects@,
            final(self).stack@ == old(self).stack@,
            final(self).same_bookkeeping(*old(self)),
    {
        let from = v.kind_name();
        let parsed = match &v {
            Value::Integer(i) => Some(*i),
            Value::String(s) => {
                if s.0.main_id != self.main_id {
                    self.release_value(v);
                    return Err(Error::ForeignValue);
                }
                match self.string_bytes(&s.0) {
                    Some(c) => {
                        proof {
                            if !numeral_like(c@) {
                                lemma_no_numeral_no_value(c@);
                            }
                        }
                        parse_integer(c)
                    },
                    None => None,
                }
            },
            _ => None,
        };
        self.release_value(v);
        match parsed {
            Some(i) => Ok(i),
            None => Err(Error::FromLuaConversionError { from, to: "integer", message: None }),
        }
    }

    /// The contents of the string a handle stands for, if it stands for one.
    pub fn string_bytes(&self, r: &LuaRef) -> (c: Option<&Vec<u8>>)
        ensures
            c is Some <==> self.string_of(*r) is Some,
            c is Some ==> c.unwrap()@ == self.string_of(*r).unwrap(),
    {
        match self.registry.get(r.registry_id) {
            RawValue::Str(o) => if o < self.objects.len() {
                match &self.objects[o] {
                    Object::Str(c) => Some(c),
                    _ => None,
                }
            } else {
                None
            },
            _ => None,
        }
    }
}

} // verus!
