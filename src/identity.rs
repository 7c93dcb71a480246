use vstd::prelude::*;
use vstd::string::StringExecFns;
use vstd::string::StringSliceAdditionalSpecFns;

verus! {

/// The byte `_` that separates the fields of a plot's file name.
pub const FIELD_SEPARATOR: u8 = 95;

/// The byte `+`, which may stand in front of the digits of a field.
pub const PLUS_SIGN: u8 = 43;

/// The byte `0`.
pub const DIGIT_ZERO: u8 = 48;

/// Why a plot could not be opened.
#[derive(Debug, Clone, Copy, PartialEq, Eq, Structural)]
pub enum PlotError {
    /// The path does not name a regular file.
    NotAFile,
    /// The file name is not `<account_id>_<start_nonce>_<nonce_count>`.
    MalformedName,
    /// The file does not hold `nonce_count` whole nonces.
    SizeMismatch { expected: u128, actual: u64 },
}

/// The identity that a plot carries in its file name.
#[derive(Clone)]
pub struct Meta {
    pub account_id: u64,
    pub start_nonce: u64,
    pub nonces: u64,
    pub name: String,
}

pub open spec fn is_digit(c: u8) -> bool {
    DIGIT_ZERO <= c && c <= DIGIT_ZERO + 9
}

pub open spec fn all_digits(s: Seq<u8>) -> bool {
    forall|i: int| 0 <= i < s.len() ==> is_digit(#[trigger] s[i])
}

/// The number that a string of decimal digits writes.
pub open spec fn digits_value(s: Seq<u8>) -> int
    decreases s.len(),
{
    if s.len() == 0 {
        0
    } else {
        digits_value(s.drop_last()) * 10 + (s.last() - DIGIT_ZERO)
    }
}

/// A field without the `+` that may lead it.
pub open spec fn unsigned_part(f: Seq<u8>) -> Seq<u8> {
    if f.len() > 0 && f[0] == PLUS_SIGN {
        f.drop_first()
    } else {
        f
    }
}

/// The value of a field read as an unsigned 64-bit decimal number: an optional
/// `+`, then at least one digit, and a value that fits in 64 bits.
pub open spec fn field_value(f: Seq<u8>) -> Option<u64> {
    let d = unsigned_part(f);
    if d.len() > 0 && all_digits(d) && digits_value(d) <= u64::MAX {
        Some(digits_value(d) as u64)
    } else {
        None
    }
}

/// The fields of a name, split at every `_`.
pub open spec fn split_fields(s: Seq<u8>) -> Seq<Seq<u8>>
    decreases s.len(),
{
    if s.len() == 0 {
        seq![Seq::empty()]
    } else {
        let f = split_fields(s.drop_last());
        if s.last() == FIELD_SEPARATOR {
            f.push(Seq::empty())
        } else {
            f.update(f.len() - 1, f.last().push(s.last()))
        }
    }
}

/// Account, first nonce and nonce count written in a file name, where the name
/// is exactly three numeric fields and the count is not zero.
pub open spec fn parse_name(s: Seq<u8>) -> Option<(u64, u64, u64)> {
    let f = split_fields(s);
    if f.len() == 3 && field_value(f[0]) is Some && field_value(f[1]) is Some && field_value(
        f[2],
    ) is Some && field_value(f[2])->0 > 0 {
        Some((field_value(f[0])->0, field_value(f[1])->0, field_value(f[2])->0))
    } else {
        None
    }
}

/// One past the last nonce of a plot.
pub open spec fn nonce_end(m: Meta) -> int {
    m.start_nonce + m.nonces
}

/// Whether `[a.start_nonce, a.start_nonce + a.nonces)` and the same range of
/// `b` have a nonce in common.
pub open spec fn ranges_intersect(a: Meta, b: Meta) -> bool {
    a.start_nonce < nonce_end(b) && b.start_nonce < nonce_end(a)
}

/// How many nonces the ranges of `a` and `b` have in common.
pub open spec fn shared_nonces(a: Meta, b: Meta) -> int {
    let lo = if a.start_nonce < b.start_nonce {
        b.start_nonce as int
    } else {
        a.start_nonce as int
    };
    let hi = if nonce_end(a) < nonce_end(b) {
        nonce_end(a)
    } else {
        nonce_end(b)
    };
    if lo < hi {
        hi - lo
    } else {
        0
    }
}

/// What each vector of a sequence holds.
pub open spec fn views(v: Seq<Vec<u8>>) -> Seq<Seq<u8>> {
    v.map_values(|x: Vec<u8>| x@)
}

/// Splits a name at every `_`.
fn split_at_separators(s: &[u8]) -> (r: Vec<Vec<u8>>)
    ensures
        views(r@) == split_fields(s@),
{
    let mut done: Vec<Vec<u8>> = Vec::new();
    let mut cur: Vec<u8> = Vec::new();
    let mut i: usize = 0;
    assert(s@.subrange(0, 0) =~= Seq::<u8>::empty());
    while i < s.len()
        invariant
            i <= s@.len(),
            views(done@).push(cur@) == split_fields(s@.subrange(0, i as int)),
        decreases s@.len() - i,
    {
        let c = s[i];
        proof {
            let p = s@.subrange(0, i as int + 1);
            assert(p.drop_last() =~= s@.subrange(0, i as int));
            assert(p.last() == c);
        }
        let ghost f = split_fields(s@.subrange(0, i as int));
        let ghost done_before = views(done@);
        let ghost cur_before = cur@;
        if c == FIELD_SEPARATOR {
            done.push(cur);
            cur = Vec::new();
            assert(views(done@) =~= done_before.push(cur_before));
            assert(views(done@).push(cur@) =~= f.push(Seq::empty()));
        } else {
            cur.push(c);
            assert(views(done@) =~= done_before);
            assert(views(done@).push(cur@) =~= f.update(f.len() - 1, f.last().push(c)));
        }
        i = i + 1;
    }
    assert(s@.subrange(0, s@.len() as int) =~= s@);
    let ghost done_before = views(done@);
    let ghost cur_before = cur@;
    done.push(cur);
    assert(views(done@) =~= done_before.push(cur_before));
    done
}

proof fn lemma_digits_value_nonneg(s: Seq<u8>)
    requires
        all_digits(s),
    ensures
        digits_value(s) >= 0,
    decreases s.len(),
{
    if s.len() > 0 {
        lemma_digits_value_nonneg(s.drop_last());
    }
}

/// Reads a field as an unsigned 64-bit decimal number.
fn parse_field(f: &Vec<u8>) -> (r: Option<u64>)
    ensures
        r == field_value(f@),
{
    let start: usize = if f.len() > 0 && f[0] == PLUS_SIGN {
        1
    } else {
        0
    };
    let ghost d = unsigned_part(f@);
    assert(d =~= f@.subrange(start as int, f@.len() as int));
    if start == f.len() {
        return None;
    }
    let mut acc: u64 = 0;
    let mut too_large = false;
    let mut i: usize = start;
    assert(d.subrange(0, 0) =~= Seq::<u8>::empty());
    while i < f.len()
        invariant
            start <= i <= f@.len(),
            d == unsigned_part(f@),
            d =~= f@.subrange(start as int, f@.len() as int),
            all_digits(d.subrange(0, i - start)),
            !too_large ==> acc == digits_value(d.subrange(0, i - start)),
            too_large ==> digits_value(d.subrange(0, i - start)) > u64::MAX,
        decreases f@.len() - i,
    {
        let c = f[i];
        if c < DIGIT_ZERO || c > DIGIT_ZERO + 9 {
            assert(d[i - start] == f@[i as int]);
            assert(!is_digit(d[i - start]));
            assert(!all_digits(d));
            return None;
        }
        let ghost p = d.subrange(0, i - start + 1);
        proof {
            assert(p.drop_last() =~= d.subrange(0, i - start));
            assert(p.last() == c);
            assert(all_digits(p));
            lemma_digits_value_nonneg(p.drop_last());
        }
        let digit = (c - DIGIT_ZERO) as u64;
        if !too_large {
            if acc > (u64::MAX - digit) / 10 {
                too_large = true;
                assert(acc * 10 + digit > u64::MAX) by (nonlinear_arith)
                    requires
                        acc > (u64::MAX - digit) / 10,
                        digit <= 9,
                ;
            } else {
                assert(acc * 10 + digit <= u64::MAX) by (nonlinear_arith)
                    requires
                        acc <= (u64::MAX - digit) / 10,
                        digit <= 9,
                ;
                acc = acc * 10 + digit;
            }
        } else {
            assert(digits_value(p) > u64::MAX) by (nonlinear_arith)
                requires
                    digits_value(p) == digits_value(p.drop_last()) * 10 + digit,
                    digits_value(p.drop_last()) > u64::MAX,
                    digit >= 0,
            ;
        }
        i = i + 1;
    }
    assert(d.subrange(0, f@.len() - start) =~= d);
    if too_large {
        None
    } else {
        Some(acc)
    }
}

impl Meta {
    /// Reads a plot's identity from its file name
    /// `<account_id>_<start_nonce>_<nonce_count>`. The name kept is the
    /// canonical decimal one, whatever leading zeros or signs the file name had.
    pub fn parse(file_name: &str) -> (r: Result<Meta, PlotError>)
        ensures
            match parse_name(file_name.spec_bytes()) {
                Some((a, s, n)) => r matches Ok(m) && m.account_id == a && m.start_nonce == s
                    && m.nonces == n && m.name@ == as_chars(canonical_name(a, s, n)),
                None => r == Err::<Meta, PlotError>(PlotError::MalformedName),
            },
    {
        let bytes = file_name.as_bytes();
        let fields = split_at_separators(bytes);
        if fields.len() != 3 {
            return Err(PlotError::MalformedName);
        }
        proof {
            assert(views(fields@)[0] == fields[0]@);
            assert(views(fields@)[1] == fields[1]@);
            assert(views(fields@)[2] == fields[2]@);
        }
        let account_id = match parse_field(&fields[0]) {
            Some(v) => v,
            None => {
                return Err(PlotError::MalformedName);
            },
        };
        let start_nonce = match parse_field(&fields[1]) {
            Some(v) => v,
            None => {
                return Err(PlotError::MalformedName);
            },
        };
        let nonces = match parse_field(&fields[2]) {
            Some(v) => v,
            None => {
                return Err(PlotError::MalformedName);
            },
        };
        if nonces == 0 {
            return Err(PlotError::MalformedName);
        }
        let name = canonical_string(account_id, start_nonce, nonces);
        Ok(Meta { account_id, start_nonce, nonces, name })
    }

    /// Whether this plot and `other` claim a nonce in common.
    pub fn overlaps_with(&self, other: &Meta) -> (r: bool)
        ensures
            r == ranges_intersect(*self, *other),
            self.nonces > 0 && other.nonces > 0 ==> r == (shared_nonces(*self, *other) > 0),
    {
        let self_end = self.start_nonce as u128 + self.nonces as u128;
        let other_end = other.start_nonce as u128 + other.nonces as u128;
        (self.start_nonce as u128) < other_end && (other.start_nonce as u128) < self_end
    }

    /// How many nonces this plot and `other` have in common.
    pub fn overlap(&self, other: &Meta) -> (r: u64)
        ensures
            r == shared_nonces(*self, *other),
    {
        let self_end = self.start_nonce as u128 + self.nonces as u128;
        let other_end = other.start_nonce as u128 + other.nonces as u128;
        let lo = if self.start_nonce < other.start_nonce {
            other.start_nonce
        } else {
            self.start_nonce
        };
        let hi = if self_end < other_end {
            self_end
        } else {
            other_end
        };
        if (lo as u128) < hi {
            (hi - lo as u128) as u64
        } else {
            0
        }
    }
}

/// Overlap is symmetric, and two plots overlap exactly when they share at
/// least one nonce.
pub proof fn lemma_overlap_symmetric(a: Meta, b: Meta)
    requires
        a.nonces > 0,
        b.nonces > 0,
    ensures
        ranges_intersect(a, b) == ranges_intersect(b, a),
        shared_nonces(a, b) == shared_nonces(b, a),
        ranges_intersect(a, b) == (shared_nonces(a, b) > 0),
{
}

/// The decimal digits of `v`, without leading zeros.
pub open spec fn decimal_text(v: nat) -> Seq<u8>
    decreases v,
{
    if v < 10 {
        seq![(DIGIT_ZERO + v) as u8]
    } else {
        decimal_text(v / 10).push((DIGIT_ZERO + v % 10) as u8)
    }
}

/// The file name `<account_id>_<start_nonce>_<nonce_count>` in decimal.
pub open spec fn canonical_name(account_id: u64, start_nonce: u64, nonces: u64) -> Seq<u8> {
    decimal_text(account_id as nat) + seq![FIELD_SEPARATOR] + decimal_text(start_nonce as nat)
        + seq![FIELD_SEPARATOR] + decimal_text(nonces as nat)
}

proof fn lemma_decimal_text(v: nat)
    ensures
        decimal_text(v).len() > 0,
        all_digits(decimal_text(v)),
        digits_value(decimal_text(v)) == v,
    decreases v,
{
    let t = decimal_text(v);
    if v >= 10 {
        lemma_decimal_text(v / 10);
        let h = decimal_text(v / 10);
        assert(t.drop_last() =~= h);
        assert forall|i: int| 0 <= i < t.len() implies is_digit(#[trigger] t[i]) by {
            if i < h.len() {
                assert(t[i] == h[i]);
            }
        }
        assert(v == (v / 10) * 10 + v % 10);
        assert(t.last() == DIGIT_ZERO + v % 10);
        assert(digits_value(t) == digits_value(h) * 10 + (t.last() - DIGIT_ZERO));
    } else {
        assert(t.drop_last() =~= Seq::<u8>::empty());
        assert(t.last() == DIGIT_ZERO + v);
        assert(digits_value(t) == digits_value(t.drop_last()) * 10 + (t.last() - DIGIT_ZERO));
    }
}

proof fn lemma_decimal_field(v: u64)
    ensures
        field_value(decimal_text(v as nat)) == Some(v),
{
    lemma_decimal_text(v as nat);
    let t = decimal_text(v as nat);
    assert(is_digit(t[0]));
    assert(unsigned_part(t) == t);
}

proof fn lemma_split_fields_nonempty(s: Seq<u8>)
    ensures
        split_fields(s).len() >= 1,
    decreases s.len(),
{
    if s.len() > 0 {
        lemma_split_fields_nonempty(s.drop_last());
    }
}

/// Appending bytes without a separator extends the last field.
proof fn lemma_split_append_field(x: Seq<u8>, y: Seq<u8>)
    requires
        forall|i: int| 0 <= i < y.len() ==> #[trigger] y[i] != FIELD_SEPARATOR,
    ensures
        split_fields(x + y) =~= split_fields(x).update(
            split_fields(x).len() - 1,
            split_fields(x).last() + y,
        ),
    decreases y.len(),
{
    lemma_split_fields_nonempty(x);
    let f = split_fields(x);
    if y.len() == 0 {
        assert(x + y =~= x);
        assert(f.last() + y =~= f.last());
    } else {
        let z = y.drop_last();
        lemma_split_append_field(x, z);
        assert((x + y).drop_last() =~= x + z);
        assert((x + y).last() == y.last());
        assert(y.last() == y[y.len() - 1]);
        assert((f.last() + z).push(y.last()) =~= f.last() + y);
    }
}

/// Appending a separator starts a new, empty field.
proof fn lemma_split_append_separator(x: Seq<u8>)
    ensures
        split_fields(x + seq![FIELD_SEPARATOR]) =~= split_fields(x).push(Seq::empty()),
{
    let y = x + seq![FIELD_SEPARATOR];
    assert(y.drop_last() =~= x);
}

proof fn lemma_digits_have_no_separator(t: Seq<u8>)
    requires
        all_digits(t),
    ensures
        forall|i: int| 0 <= i < t.len() ==> #[trigger] t[i] != FIELD_SEPARATOR,
{
    assert forall|i: int| 0 <= i < t.len() implies #[trigger] t[i] != FIELD_SEPARATOR by {
        assert(is_digit(t[i]));
    }
}

/// A name written in decimal as `<account_id>_<start_nonce>_<nonce_count>`,
/// with a count that is not zero, reads back as those three numbers.
pub proof fn lemma_canonical_name_parses(account_id: u64, start_nonce: u64, nonces: u64)
    requires
        nonces > 0,
    ensures
        parse_name(canonical_name(account_id, start_nonce, nonces)) == Some(
            (account_id, start_nonce, nonces),
        ),
{
    let ta = decimal_text(account_id as nat);
    let ts = decimal_text(start_nonce as nat);
    let tn = decimal_text(nonces as nat);
    let sep = seq![FIELD_SEPARATOR];
    lemma_decimal_text(account_id as nat);
    lemma_decimal_text(start_nonce as nat);
    lemma_decimal_text(nonces as nat);
    lemma_digits_have_no_separator(ta);
    lemma_digits_have_no_separator(ts);
    lemma_digits_have_no_separator(tn);
    lemma_decimal_field(account_id);
    lemma_decimal_field(start_nonce);
    lemma_decimal_field(nonces);
    let e = Seq::<u8>::empty();
    assert(e + ta =~= ta);
    lemma_split_append_field(e, ta);
    assert(split_fields(ta) =~= seq![ta]);
    lemma_split_append_separator(ta);
    lemma_split_append_field(ta + sep, ts);
    assert(split_fields(ta + sep + ts) =~= seq![ta, ts]);
    lemma_split_append_separator(ta + sep + ts);
    lemma_split_append_field(ta + sep + ts + sep, tn);
    assert(split_fields(canonical_name(account_id, start_nonce, nonces)) =~= seq![ta, ts, tn]);
}

/// A name's bytes read as characters.
pub open spec fn as_chars(b: Seq<u8>) -> Seq<char> {
    b.map_values(|c: u8| c as char)
}

/// The one-character string of decimal digit `d`.
fn digit_str(d: u64) -> (r: &'static str)
    requires
        d < 10,
    ensures
        r@ == seq![(DIGIT_ZERO + d) as u8 as char],
{
    proof {
        reveal_strlit("0");
        reveal_strlit("1");
        reveal_strlit("2");
        reveal_strlit("3");
        reveal_strlit("4");
        reveal_strlit("5");
        reveal_strlit("6");
        reveal_strlit("7");
        reveal_strlit("8");
        reveal_strlit("9");
    }
    match d {
        0 => "0",
        1 => "1",
        2 => "2",
        3 => "3",
        4 => "4",
        5 => "5",
        6 => "6",
        7 => "7",
        8 => "8",
        _ => "9",
    }
}

/// Appends the decimal digits of `v` to `s`.
fn push_decimal(s: &mut String, v: u64)
    ensures
        final(s)@ == old(s)@ + as_chars(decimal_text(v as nat)),
    decreases v,
{
    if v >= 10 {
        push_decimal(s, v / 10);
    }
    let ghost mid = s@;
    s.append(digit_str(v % 10));
    proof {
        let t = decimal_text(v as nat);
        if v >= 10 {
            assert(t == decimal_text((v / 10) as nat).push((DIGIT_ZERO + v % 10) as u8));
            assert(as_chars(t) =~= as_chars(decimal_text((v / 10) as nat)) + seq![
                (DIGIT_ZERO + v % 10) as u8 as char,
            ]);
        } else {
            assert(as_chars(t) =~= seq![(DIGIT_ZERO + v % 10) as u8 as char]);
        }
    }
}

/// The name `<account_id>_<start_nonce>_<nonce_count>` in decimal.
fn canonical_string(account_id: u64, start_nonce: u64, nonces: u64) -> (r: String)
    ensures
        r@ == as_chars(canonical_name(account_id, start_nonce, nonces)),
{
    let mut s = String::new();
    proof {
        reveal_strlit("_");
    }
    push_decimal(&mut s, account_id);
    s.append("_");
    push_decimal(&mut s, start_nonce);
    s.append("_");
    push_decimal(&mut s, nonces);
    let ghost ta = decimal_text(account_id as nat);
    let ghost ts = decimal_text(start_nonce as nat);
    let ghost tn = decimal_text(nonces as nat);
    assert(as_chars(canonical_name(account_id, start_nonce, nonces)) =~= as_chars(ta) + seq!['_']
        + as_chars(ts) + seq!['_'] + as_chars(tn));
    s
}

} // verus!
