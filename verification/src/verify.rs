//! Independent verification of a collector's behaviour.
//!
//! Verification never asks the collector what it thinks is alive. It walks the
//! real heap through the collector's own `read_field`, starting from the
//! collector's own roots, and compares what it finds against the model the
//! mutator built. Every object carries an identity stamp, so the walk can tell
//! "the right object" from "some other object that now occupies this address".

use crate::collector::Collector;
use crate::heap::{Handle, Heap, NULL_ADDR};
use crate::model::{count_false, lemma_count_false_all, lemma_count_false_set, reach_bytes, Model, ID_OFF, MAGIC, MAGIC_OFF, STAMP_BYTES};
use crate::roots::{lookup, RootSlot, Roots};
use vstd::prelude::*;
use vstd::string::StringExecFns;

verus! {

/// Where a handle was found, so failures can name a path instead of an address.
#[derive(Clone, Debug)]
pub enum Origin {
    RootSlot(usize),
    Global(String),
    Field { parent: u64, index: u16 },
}

#[allow(inconsistent_fields)]
#[derive(Clone, Debug)]
pub enum Violation {
    /// A handle does not address a well-formed object inside the arena.
    OutOfBounds { origin: Origin, handle: Handle },
    /// The object at this handle has no valid identity stamp.
    CorruptPayload { origin: Origin, handle: Handle, found: u32 },
    /// The stamp is valid but names an object the model has never seen.
    UnknownIdentity { origin: Origin, handle: Handle, id: u64 },
    /// Two different addresses claim to be the same object.
    DuplicatedIdentity { id: u64, at: Vec<Handle> },
    /// The object at this handle is not the one that should be here.
    WrongObject { origin: Origin, handle: Handle, expected: u64, found: u64 },
    /// A slot that should be null is not, or vice versa.
    NullMismatch { origin: Origin, expected_null: bool },
    /// The object's shape changed underneath the mutator.
    ShapeMismatch { id: u64, handle: Handle, expected_nrefs: u16, found_nrefs: u16 },
    /// Reachable according to the model, but the walk never reached it.
    Unreachable { id: u64, path: String },
    /// The root stack and the model's mirror of it have diverged.
    RootStackDepth { collector: usize, model: usize },
    /// A global the model holds is missing from the collector's root table.
    MissingGlobal { name: String },
    /// Bytes in use do not match the bytes the model says are still reachable.
    Accounting { used: u32, reachable: u64, unreclaimed: i64 },
}

/// Most violations recorded before the rest are counted rather than described.
pub const MAX_VIOLATIONS: usize = 64;

/// How many lost objects get a root path worked out for them.
pub const MAX_PATHS: usize = 8;

/// The outcome of a verification pass.
#[derive(Debug)]
pub struct Report {
    pub violations: Vec<Violation>,
    /// Violations beyond [`MAX_VIOLATIONS`], counted but not described.
    pub omitted: usize,
    /// Distinct objects the walk reached.
    pub visited: usize,
}

/// The first `k` violations, one per line, numbered from one.
pub open spec fn violation_lines(vs: Seq<Violation>, k: nat) -> Seq<char>
    decreases k,
{
    if k == 0 {
        Seq::empty()
    } else {
        violation_lines(vs, (k - 1) as nat) + "  "@ + spec_digits(k, 10) + ". "@ + violation_text(vs[k - 1])
            + "\n"@
    }
}

/// The report in words.
pub open spec fn report_text(r: Report) -> Seq<char> {
    if r.is_clean() {
        "heap is consistent ("@ + spec_digits(r.visited as nat, 10) + " objects reached)"@
    } else {
        let n = r.violations@.len();
        let total: nat = if n + r.omitted > u64::MAX {
            u64::MAX as nat
        } else {
            (n + r.omitted) as nat
        };
        let shown: nat = if n < 12 {
            n
        } else {
            12
        };
        (if r.omitted > 0 {
            "at least "@
        } else {
            Seq::empty()
        }) + spec_digits(total, 10) + " heap invariant violation(s) after reaching "@ + spec_digits(
            r.visited as nat,
            10,
        ) + " objects:\n"@ + violation_lines(r.violations@, shown) + if total > 12 {
            "  ... and "@ + spec_digits((total - 12) as nat, 10) + " more\n"@
        } else {
            Seq::empty()
        }
    }
}

impl Report {
    /// Nothing was found wrong.
    pub open spec fn is_clean(&self) -> bool {
        self.violations@.len() == 0 && self.omitted == 0
    }

    pub fn ok(&self) -> (r: bool)
        ensures
            r == self.is_clean(),
    {
        self.violations.len() == 0 && self.omitted == 0
    }

    fn record(&mut self, v: Violation)
        requires
            old(self).violations@.len() <= MAX_VIOLATIONS,
        ensures
            final(self).violations@.len() <= MAX_VIOLATIONS,
            !final(self).is_clean(),
            final(self).visited == old(self).visited,
            old(self).violations@.len() < MAX_VIOLATIONS ==> final(self).violations@ == old(self).violations@.push(v),
            old(self).violations@.len() >= MAX_VIOLATIONS ==> final(self).violations@ == old(self).violations@,
            final(self).omitted >= old(self).omitted,
            old(self).violations@.len() < MAX_VIOLATIONS ==> final(self).omitted == old(self).omitted,
            old(self).violations@.len() >= MAX_VIOLATIONS && old(self).omitted == 0 ==> final(self).omitted > 0,
            forall|m: Model|
                fields_checked(*old(self), m) && field_null_sound(v, m) ==> #[trigger] fields_checked(*final(self), m),
            forall|st: Seq<Handle>, ms: Seq<Option<u64>>, u: int|
                roots_checked(*old(self), st, ms, u) && root_null_sound(v, st, ms) ==> #[trigger] roots_checked(
                    *final(self),
                    st,
                    ms,
                    u,
                ),
    {
        let ghost before = *self;
        if self.violations.len() < MAX_VIOLATIONS {
            self.violations.push(v);
        } else {
            self.omitted = if self.omitted < usize::MAX {
                self.omitted + 1
            } else {
                self.omitted
            };
        }
        proof {
            assert forall|m: Model| fields_checked(before, m) && field_null_sound(v, m) implies #[trigger] fields_checked(
                *self,
                m,
            ) by {
                assert forall|i: int| 0 <= i < self.violations@.len() implies field_null_sound(
                    #[trigger] self.violations@[i],
                    m,
                ) by {
                    if i < before.violations@.len() {
                        assert(self.violations@[i] == before.violations@[i]);
                    }
                }
            }
            assert forall|st: Seq<Handle>, ms: Seq<Option<u64>>, u: int|
                roots_checked(before, st, ms, u) && root_null_sound(v, st, ms) implies #[trigger] roots_checked(
                *self,
                st,
                ms,
                u,
            ) by {
                assert forall|i: int| 0 <= i < self.violations@.len() implies root_null_sound(
                    #[trigger] self.violations@[i],
                    st,
                    ms,
                ) by {
                    if i < before.violations@.len() {
                        assert(self.violations@[i] == before.violations@[i]);
                    }
                }
                if self.omitted == 0 {
                    assert forall|s: int|
                        0 <= s < u && (#[trigger] root_null_expected(st, ms, s)) is Some implies self.violations@.contains(
                        (Violation::NullMismatch {
                            origin: Origin::RootSlot(s as usize),
                            expected_null: root_null_expected(st, ms, s)->Some_0,
                        }),
                    ) by {
                        let w = (Violation::NullMismatch {
                            origin: Origin::RootSlot(s as usize),
                            expected_null: root_null_expected(st, ms, s)->Some_0,
                        });
                        assert(before.violations@.contains(w));
                        let k = choose|k: int| 0 <= k < before.violations@.len() && before.violations@[k] == w;
                        assert(self.violations@[k] == w);
                    }
                }
            }
        }
    }

    fn full(&self) -> (r: bool)
        ensures
            r == (self.violations@.len() >= MAX_VIOLATIONS),
    {
        self.violations.len() >= MAX_VIOLATIONS
    }

    /// The report in words: a one-line all-clear, or a count of the
    /// violations followed by the first dozen of them, one per line.
    pub fn describe(&self) -> (r: String)
        ensures
            r@ == report_text(*self),
    {
        let mut s = String::new();
        if self.ok() {
            s.append("heap is consistent (");
            push_num(&mut s, self.visited as u64);
            s.append(" objects reached)");
            assert(s@ =~= report_text(*self));
            return s;
        }
        let total: u64 = (self.violations.len() as u64).saturating_add(self.omitted as u64);
        if self.omitted > 0 {
            s.append("at least ");
        }
        push_num(&mut s, total);
        s.append(" heap invariant violation(s) after reaching ");
        push_num(&mut s, self.visited as u64);
        s.append(" objects:\n");
        let ghost head = s@;
        let mut n: usize = 0;
        while n < self.violations.len() && n < 12
            invariant
                n <= 12,
                n <= self.violations@.len(),
                s@ == head + violation_lines(self.violations@, n as nat),
            decreases 12 - n,
        {
            let ghost before = s@;
            s.append("  ");
            push_num(&mut s, n as u64 + 1);
            s.append(". ");
            s.append(self.violations[n].describe().as_str());
            s.append("\n");
            assert(s@ =~= head + violation_lines(self.violations@, (n + 1) as nat));
            n = n + 1;
        }
        let ghost shown = s@;
        if total > 12 {
            s.append("  ... and ");
            push_num(&mut s, total - 12);
            s.append(" more\n");
        }
        assert(s@ =~= report_text(*self));
        s
    }
}

/// The character for the digit `d`, in any base up to sixteen.
pub open spec fn digit_char(d: int) -> char {
    if d < 10 {
        (48 + d) as char
    } else {
        (87 + d) as char
    }
}

/// `n` written in base `base`, most significant digit first, with no
/// leading zeros: `"0"` for zero.
pub open spec fn spec_digits(n: nat, base: nat) -> Seq<char>
    decreases n,
{
    if base < 2 || n < base {
        seq![digit_char(n as int)]
    } else {
        proof {
            vstd::arithmetic::div_mod::lemma_div_is_strictly_smaller(n as int, base as int);
        }
        spec_digits(n / base, base).push(digit_char((n % base) as int))
    }
}

/// The characters for `ds`, a number's digits least significant first, in
/// reading order.
pub open spec fn digits_read(ds: Seq<u64>) -> Seq<char> {
    Seq::new(ds.len(), |i: int| digit_char(ds[ds.len() - 1 - i] as int))
}

/// The digit `d` as text, in any base up to sixteen.
fn digit_text(d: u64) -> (r: &'static str)
    requires
        d < 16,
    ensures
        r@ == seq![digit_char(d as int)],
{
    proof {
        reveal_strlit("0");
        reveal_strlit("1");
        reveal_strlit("2");
        reveal_strlit("3");
        reveal_strlit("4");
        reveal_strlit("5");
        reveal_strlit("6");
        reveal_strlit("7");
        reveal_strlit("8");
        reveal_strlit("9");
        reveal_strlit("a");
        reveal_strlit("b");
        reveal_strlit("c");
        reveal_strlit("d");
        reveal_strlit("e");
        reveal_strlit("f");
    }
    match d {
        0 => "0",
        1 => "1",
        2 => "2",
        3 => "3",
        4 => "4",
        5 => "5",
        6 => "6",
        7 => "7",
        8 => "8",
        9 => "9",
        10 => "a",
        11 => "b",
        12 => "c",
        13 => "d",
        14 => "e",
        _ => "f",
    }
}

/// `n` written in base `base`, most significant digit first.
fn digits_in(n: u64, base: u64) -> (r: String)
    requires
        2 <= base <= 16,
    ensures
        r@ == spec_digits(n as nat, base as nat),
{
    let mut digits: Vec<u64> = Vec::new();
    let mut m = n;
    loop
        invariant_except_break
            2 <= base <= 16,
            forall|j: int| 0 <= j < digits@.len() ==> #[trigger] digits@[j] < base,
            spec_digits(n as nat, base as nat) == spec_digits(m as nat, base as nat) + digits_read(digits@),
        ensures
            2 <= base <= 16,
            forall|j: int| 0 <= j < digits@.len() ==> #[trigger] digits@[j] < base,
            spec_digits(n as nat, base as nat) == digits_read(digits@),
        decreases m,
    {
        let ghost before = digits@;
        digits.push(m % base);
        proof {
            assert(digits_read(digits@) =~= seq![digit_char((m % base) as int)] + digits_read(before));
        }
        assert(m == 0 || m / base < m) by (nonlinear_arith)
            requires
                base >= 2,
        ;
        let ghost m0 = m;
        m = m / base;
        if m == 0 {
            proof {
                assert(m0 < base) by (nonlinear_arith)
                    requires
                        m0 / base == 0,
                        base >= 2,
                ;
                assert(m0 % base == m0) by (nonlinear_arith)
                    requires
                        m0 < base,
                ;
                assert(spec_digits(m0 as nat, base as nat) == seq![digit_char(m0 as int)]);
                assert(digits_read(digits@) =~= seq![digit_char(m0 as int)] + digits_read(before));
            }
            break;
        }
        proof {
            assert(m0 >= base) by (nonlinear_arith)
                requires
                    m0 / base != 0,
                    base >= 2,
            ;
            assert(spec_digits(m0 as nat, base as nat) == spec_digits(m as nat, base as nat).push(
                digit_char((m0 % base) as int),
            ));
            assert(spec_digits(m as nat, base as nat) + digits_read(digits@) =~= spec_digits(m as nat, base as nat)
                + seq![digit_char((m0 % base) as int)] + digits_read(before));
        }
    }
    let mut out = String::new();
    let mut j = digits.len();
    while j > 0
        invariant
            j <= digits@.len(),
            forall|k: int| 0 <= k < digits@.len() ==> #[trigger] digits@[k] < 16,
            out@ =~= digits_read(digits@.subrange(j as int, digits@.len() as int)),
        decreases j,
    {
        j = j - 1;
        out.append(digit_text(digits[j]));
        assert(out@ =~= digits_read(digits@.subrange(j as int, digits@.len() as int)));
    }
    assert(digits@.subrange(0, digits@.len() as int) =~= digits@);
    out
}

/// `n` written in decimal.
fn decimal(n: u64) -> (r: String)
    ensures
        r@ == spec_digits(n as nat, 10),
{
    digits_in(n, 10)
}

/// Append `n` in decimal.
pub fn push_num(s: &mut String, n: u64)
    ensures
        final(s)@ == old(s)@ + spec_digits(n as nat, 10),
{
    s.append(decimal(n).as_str());
}

/// `n` in hexadecimal, with a `0x` prefix.
pub open spec fn hex_text(n: nat) -> Seq<char> {
    seq!['0', 'x'] + spec_digits(n, 16)
}

/// Append `n` in hexadecimal, with a `0x` prefix.
pub fn push_hex(s: &mut String, n: u64)
    ensures
        final(s)@ == old(s)@ + hex_text(n as nat),
{
    proof {
        reveal_strlit("0x");
    }
    s.append("0x");
    s.append(digits_in(n, 16).as_str());
    assert(s@ =~= old(s)@ + hex_text(n as nat));
}

/// A handle the way its debug form reads: `null`, or its address in
/// hexadecimal after an `@`, as in `@0x10`.
pub open spec fn handle_text(h: Handle) -> Seq<char> {
    if h.0 == NULL_ADDR {
        seq!['n', 'u', 'l', 'l']
    } else {
        seq!['@'] + hex_text(h.0 as nat)
    }
}

/// Append a handle the way its debug form reads: `null` or `@0x10`.
pub fn push_handle(s: &mut String, h: Handle)
    ensures
        final(s)@ == old(s)@ + handle_text(h),
{
    proof {
        reveal_strlit("null");
        reveal_strlit("@");
    }
    if h.is_null() {
        s.append("null");
    } else {
        s.append("@");
        push_hex(s, h.0 as u64);
    }
    assert(s@ =~= old(s)@ + handle_text(h));
}

/// How one character of a string reads inside its quoted debug form: a
/// backslash escape for the quote, the backslash and the common control
/// characters, `\u{..}` in hexadecimal for any other ASCII control
/// character, and the character itself otherwise.
pub open spec fn escaped_char(c: char) -> Seq<char> {
    if c == '\0' {
        seq!['\\', '0']
    } else if c == '\t' {
        seq!['\\', 't']
    } else if c == '\r' {
        seq!['\\', 'r']
    } else if c == '\n' {
        seq!['\\', 'n']
    } else if c == '\\' {
        seq!['\\', '\\']
    } else if c == '"' {
        seq!['\\', '"']
    } else if (c as u32) < 0x20 || c as u32 == 0x7f {
        seq!['\\', 'u', '{'] + spec_digits((c as u32) as nat, 16) + seq!['}']
    } else {
        seq![c]
    }
}

/// The characters of `t`, each escaped.
pub open spec fn escaped_text(t: Seq<char>) -> Seq<char>
    decreases t.len(),
{
    if t.len() == 0 {
        Seq::empty()
    } else {
        escaped_text(t.drop_last()) + escaped_char(t.last())
    }
}

/// A string the way its debug form reads: quoted, with escapes.
pub open spec fn quoted_text(t: Seq<char>) -> Seq<char> {
    seq!['"'] + escaped_text(t) + seq!['"']
}

/// Append `c`, escaped.
fn push_escaped_char(s: &mut String, c: char, one: &str)
    requires
        one@ == seq![c],
    ensures
        final(s)@ == old(s)@ + escaped_char(c),
{
    proof {
        reveal_strlit("\\0");
        reveal_strlit("\\t");
        reveal_strlit("\\r");
        reveal_strlit("\\n");
        reveal_strlit("\\\\");
        reveal_strlit("\\\"");
        reveal_strlit("\\u{");
        reveal_strlit("}");
    }
    let code = c as u32;
    if c == '\0' {
        s.append("\\0");
    } else if c == '\t' {
        s.append("\\t");
    } else if c == '\r' {
        s.append("\\r");
    } else if c == '\n' {
        s.append("\\n");
    } else if c == '\\' {
        s.append("\\\\");
    } else if c == '"' {
        s.append("\\\"");
    } else if code < 0x20 || code == 0x7f {
        s.append("\\u{");
        s.append(digits_in(code as u64, 16).as_str());
        s.append("}");
    } else {
        s.append(one);
    }
    assert(s@ =~= old(s)@ + escaped_char(c));
}

/// Append `t` the way its debug form reads: quoted, with escapes.
fn push_quoted(s: &mut String, t: &str)
    ensures
        final(s)@ == old(s)@ + quoted_text(t@),
{
    proof {
        reveal_strlit("\"");
    }
    s.append("\"");
    let n = t.unicode_len();
    let mut i: usize = 0;
    while i < n
        invariant
            n == t@.len(),
            i <= n,
            s@ == old(s)@ + seq!['"'] + escaped_text(t@.subrange(0, i as int)),
        decreases n - i,
    {
        let c = t.get_char(i);
        let one = t.substring_char(i, i + 1);
        assert(one@ =~= seq![c]);
        push_escaped_char(s, c, one);
        proof {
            let sub = t@.subrange(0, i + 1);
            assert(sub.drop_last() =~= t@.subrange(0, i as int));
            assert(sub.last() == c);
        }
        i = i + 1;
    }
    s.append("\"");
    assert(t@.subrange(0, n as int) =~= t@);
    assert(s@ =~= old(s)@ + quoted_text(t@));
}

/// A signed number in decimal.
pub open spec fn signed_text(n: int) -> Seq<char> {
    if n < 0 {
        seq!['-'] + spec_digits((-n) as nat, 10)
    } else {
        spec_digits(n as nat, 10)
    }
}

/// Append a signed number in decimal.
fn push_signed(s: &mut String, n: i64)
    ensures
        final(s)@ == old(s)@ + signed_text(n as int),
{
    if n < 0 {
        proof {
            reveal_strlit("-");
        }
        s.append("-");
        let m = (0i128 - n as i128) as u64;
        push_num(s, m);
        assert(s@ =~= old(s)@ + signed_text(n as int));
    } else {
        push_num(s, n as u64);
    }
}

/// A list of handles: `[Handle(0), Handle(32)]`, without the brackets.
pub open spec fn handles_text(hs: Seq<Handle>) -> Seq<char>
    decreases hs.len(),
{
    if hs.len() == 0 {
        Seq::empty()
    } else if hs.len() == 1 {
        handle_text(hs[0])
    } else {
        handles_text(hs.drop_last()) + seq![',', ' '] + handle_text(hs.last())
    }
}

/// Append a list of handles: `[Handle(0), Handle(32)]`.
pub fn push_handles(s: &mut String, hs: &Vec<Handle>)
    ensures
        final(s)@ == old(s)@ + seq!['['] + handles_text(hs@) + seq![']'],
{
    proof {
        reveal_strlit("[");
        reveal_strlit(", ");
        reveal_strlit("]");
    }
    s.append("[");
    let mut i: usize = 0;
    while i < hs.len()
        invariant
            i <= hs@.len(),
            s@ == old(s)@ + seq!['['] + handles_text(hs@.subrange(0, i as int)),
        decreases hs@.len() - i,
    {
        let ghost before = s@;
        if i > 0 {
            s.append(", ");
        }
        push_handle(s, hs[i]);
        proof {
            let sub = hs@.subrange(0, i + 1);
            assert(sub.drop_last() =~= hs@.subrange(0, i as int));
            assert(sub.last() == hs@[i as int]);
            if i == 0 {
                assert(handles_text(sub) == handle_text(hs@[0]));
                assert(hs@.subrange(0, 0) =~= Seq::<Handle>::empty());
                assert(s@ =~= old(s)@ + seq!['['] + handles_text(sub));
            } else {
                assert(sub.len() > 1);
                assert(handles_text(sub) == handles_text(hs@.subrange(0, i as int)) + seq![',', ' '] + handle_text(
                    hs@[i as int],
                ));
                reveal_strlit(", ");
                assert(", "@ == seq![',', ' ']);
                assert(s@ =~= before + seq![',', ' '] + handle_text(hs@[i as int]));
                assert(s@ =~= old(s)@ + seq!['['] + handles_text(sub));
            }
        }
        i = i + 1;
    }
    s.append("]");
    assert(hs@.subrange(0, hs@.len() as int) =~= hs@);
}

/// Where a handle was found, in words.
pub open spec fn origin_text(o: Origin) -> Seq<char> {
    match o {
        Origin::RootSlot(i) => "root slot "@ + spec_digits(i as nat, 10),
        Origin::Global(n) => "global "@ + quoted_text(n@),
        Origin::Field { parent, index } => "object #"@ + spec_digits(parent as nat, 10) + " field ["@
            + spec_digits(index as nat, 10) + "]"@,
    }
}

impl Origin {
    /// Where a handle was found, in words: `root slot 3`, `global "tree"`,
    /// `object #7 field [1]`.
    pub fn describe(&self) -> (r: String)
        ensures
            r@ == origin_text(*self),
    {
        let mut s = String::new();
        match self {
            Origin::RootSlot(i) => {
                s.append("root slot ");
                push_num(&mut s, *i as u64);
            },
            Origin::Global(n) => {
                s.append("global ");
                push_quoted(&mut s, n.as_str());
                assert(s@ =~= origin_text(*self));
            },
            Origin::Field { parent, index } => {
                s.append("object #");
                push_num(&mut s, *parent);
                s.append(" field [");
                push_num(&mut s, *index as u64);
                s.append("]");
                assert(s@ =~= origin_text(*self));
            },
        }
        s
    }
}

/// What went wrong, in a sentence.
pub open spec fn violation_text(v: Violation) -> Seq<char> {
    match v {
        Violation::OutOfBounds { origin, handle } => origin_text(origin) + " holds "@ + handle_text(handle)
            + ", which is not a well-formed object address"@,
        Violation::CorruptPayload { origin, handle, found } => origin_text(origin) + " holds "@ + handle_text(
            handle,
        ) + ", but the object there has no identity stamp (magic "@ + hex_text(found as nat) + ", expected "@
            + hex_text(MAGIC as nat) + ") \u{2014} it is reachable memory that has been freed or overwritten"@,
        Violation::UnknownIdentity { origin, handle, id } => origin_text(origin) + " holds "@ + handle_text(handle)
            + ", stamped with unknown identity #"@ + spec_digits(id as nat, 10),
        Violation::DuplicatedIdentity { id, at } => "object #"@ + spec_digits(id as nat, 10) + " exists at "@
            + seq!['['] + handles_text(at@) + seq![']'] + " \u{2014} one object now has "@ + spec_digits(
            at@.len(),
            10,
        ) + " distinct copies, so mutating one will not be seen through the other"@,
        Violation::WrongObject { origin, handle, expected, found } => origin_text(origin) + " should name object #"@
            + spec_digits(expected as nat, 10) + ", but "@ + handle_text(handle) + " holds object #"@ + spec_digits(
            found as nat,
            10,
        ),
        Violation::NullMismatch { origin, expected_null } => origin_text(origin) + if expected_null {
            " should be null but holds an object"@
        } else {
            " should hold an object but is null"@
        },
        Violation::ShapeMismatch { id, handle, expected_nrefs, found_nrefs } => "object #"@ + spec_digits(
            id as nat,
            10,
        ) + " at "@ + handle_text(handle) + " was allocated with "@ + spec_digits(expected_nrefs as nat, 10)
            + " reference slots but its header now claims "@ + spec_digits(found_nrefs as nat, 10),
        Violation::Unreachable { id, path } => "object #"@ + spec_digits(id as nat, 10)
            + " is still reachable from the roots ("@ + path@
            + ") but the walk never arrived at it \u{2014} it was collected while live, or a pointer to it was lost"@,
        Violation::RootStackDepth { collector, model } => "the collector's shadow stack is "@ + spec_digits(
            collector as nat,
            10,
        ) + " deep, the mutator pushed "@ + spec_digits(model as nat, 10),
        Violation::MissingGlobal { name } => "global "@ + quoted_text(name@)
            + " is bound in the mutator but absent from the roots"@,
        Violation::Accounting { used, reachable, unreclaimed } => if unreclaimed > 0 {
            spec_digits(used as nat, 10) + " bytes still in use but only "@ + spec_digits(reachable as nat, 10)
                + " are reachable: "@ + signed_text(unreclaimed as int) + " bytes of garbage survived collection"@
        } else {
            spec_digits(used as nat, 10) + " bytes in use but "@ + spec_digits(reachable as nat, 10)
                + " are reachable: the collector is under-reporting by "@ + spec_digits((-unreclaimed) as nat, 10)
                + " bytes"@
        },
    }
}

impl Violation {
    /// What went wrong, in a sentence.
    pub fn describe(&self) -> (r: String)
        ensures
            r@ == violation_text(*self),
    {
        let mut s = String::new();
        match self {
            Violation::OutOfBounds { origin, handle } => {
                s.append(origin.describe().as_str());
                s.append(" holds ");
                push_handle(&mut s, *handle);
                s.append(", which is not a well-formed object address");
                assert(s@ =~= violation_text(*self));
            },
            Violation::CorruptPayload { origin, handle, found } => {
                s.append(origin.describe().as_str());
                s.append(" holds ");
                push_handle(&mut s, *handle);
                s.append(", but the object there has no identity stamp (magic ");
                push_hex(&mut s, *found as u64);
                s.append(", expected ");
                push_hex(&mut s, MAGIC as u64);
                s.append(") \u{2014} it is reachable memory that has been freed or overwritten");
                assert(s@ =~= violation_text(*self));
            },
            Violation::UnknownIdentity { origin, handle, id } => {
                s.append(origin.describe().as_str());
                s.append(" holds ");
                push_handle(&mut s, *handle);
                s.append(", stamped with unknown identity #");
                push_num(&mut s, *id);
                assert(s@ =~= violation_text(*self));
            },
            Violation::DuplicatedIdentity { id, at } => {
                s.append("object #");
                push_num(&mut s, *id);
                s.append(" exists at ");
                push_handles(&mut s, at);
                s.append(" \u{2014} one object now has ");
                push_num(&mut s, at.len() as u64);
                s.append(" distinct copies, so mutating one will not be seen through the other");
                assert(s@ =~= violation_text(*self));
            },
            Violation::WrongObject { origin, handle, expected, found } => {
                s.append(origin.describe().as_str());
                s.append(" should name object #");
                push_num(&mut s, *expected);
                s.append(", but ");
                push_handle(&mut s, *handle);
                s.append(" holds object #");
                push_num(&mut s, *found);
                assert(s@ =~= violation_text(*self));
            },
            Violation::NullMismatch { origin, expected_null } => {
                s.append(origin.describe().as_str());
                if *expected_null {
                    s.append(" should be null but holds an object");
                } else {
                    s.append(" should hold an object but is null");
                }
                assert(s@ =~= violation_text(*self));
            },
            Violation::ShapeMismatch { id, handle, expected_nrefs, found_nrefs } => {
                s.append("object #");
                push_num(&mut s, *id);
                s.append(" at ");
                push_handle(&mut s, *handle);
                s.append(" was allocated with ");
                push_num(&mut s, *expected_nrefs as u64);
                s.append(" reference slots but its header now claims ");
                push_num(&mut s, *found_nrefs as u64);
                assert(s@ =~= violation_text(*self));
            },
            Violation::Unreachable { id, path } => {
                s.append("object #");
                push_num(&mut s, *id);
                s.append(" is still reachable from the roots (");
                s.append(path.as_str());
                s.append(") but the walk never arrived at it \u{2014} it was collected while live, or a pointer to it was lost");
                assert(s@ =~= violation_text(*self));
            },
            Violation::RootStackDepth { collector, model } => {
                s.append("the collector's shadow stack is ");
                push_num(&mut s, *collector as u64);
                s.append(" deep, the mutator pushed ");
                push_num(&mut s, *model as u64);
                assert(s@ =~= violation_text(*self));
            },
            Violation::MissingGlobal { name } => {
                s.append("global ");
                push_quoted(&mut s, name.as_str());
                s.append(" is bound in the mutator but absent from the roots");
                assert(s@ =~= violation_text(*self));
            },
            Violation::Accounting { used, reachable, unreclaimed } => {
                if *unreclaimed > 0 {
                    push_num(&mut s, *used as u64);
                    s.append(" bytes still in use but only ");
                    push_num(&mut s, *reachable);
                    s.append(" are reachable: ");
                    push_signed(&mut s, *unreclaimed);
                    s.append(" bytes of garbage survived collection");
                } else {
                    push_num(&mut s, *used as u64);
                    s.append(" bytes in use but ");
                    push_num(&mut s, *reachable);
                    s.append(" are reachable: the collector is under-reporting by ");
                    let m = (0i128 - *unreclaimed as i128) as u64;
                    push_num(&mut s, m);
                    s.append(" bytes");
                }
                assert(s@ =~= violation_text(*self));
            },
        }
        s
    }
}

/// The text of one step of a root path: `root slot 3`, `global "tree"` or,
/// for a reference slot, its index in brackets.
pub open spec fn step_text(o: Origin) -> Seq<char> {
    match o {
        Origin::Field { index, .. } => "["@ + spec_digits(index as nat, 10) + "]"@,
        _ => origin_text(o),
    }
}

fn origin_step(o: &Origin) -> (r: String)
    ensures
        r@ == step_text(*o),
{
    match o {
        Origin::RootSlot(_) | Origin::Global(_) => o.describe(),
        Origin::Field { index, .. } => {
            let mut s = String::from_str("[");
            s.append(decimal(*index as u64).as_str());
            s.append("]");
            assert(s@ =~= step_text(*o));
            s
        },
    }
}

/// `h` addresses a well-formed object whose payload carries the identity
/// stamp of object `id`.
pub open spec fn stamped(heap: Heap, h: Handle, id: u64) -> bool {
    &&& heap.spec_in_bounds(h)
    &&& heap.data_range_in(h, 0, STAMP_BYTES as int)
    &&& heap.spec_data_u32(h, MAGIC_OFF as int) == MAGIC
    &&& heap.spec_data_u64(h, ID_OFF as int) == id
}

/// What a clean report certifies about a heap and its roots, measured
/// against the model: the shadow stack has the model's depth, every slot is
/// null exactly where the model's is and otherwise holds the object the model
/// put there, every global the model binds names its object, and every object
/// the model can reach from its roots is present in the heap under its own
/// stamp.
pub open spec fn agrees(heap: Heap, roots: Roots, model: Model) -> bool {
    &&& roots.stack().len() == model.stack().len()
    &&& forall|s: int|
        0 <= s < model.stack().len() ==> match #[trigger] model.stack()[s] {
            None => roots.stack()[s].0 == NULL_ADDR,
            Some(id) => stamped(heap, roots.stack()[s], id),
        }
    &&& forall|g: int|
        0 <= g < model.bindings().len() ==> (lookup(roots.globals(), #[trigger] model.bindings()[g].0)
            matches Some(h) && stamped(heap, h, model.bindings()[g].1))
    &&& forall|id: u64| #[trigger] model.is_reachable(id) ==> exists|h: Handle| stamped(heap, h, id)
}

/// The heap and roots represent the model exactly, the object of each
/// identity in `at` standing at the handle `at` gives it: the shadow stack
/// has the model's depth and holds, slot by slot, null or the handle of the
/// identity the model put there; every global the model binds is bound to
/// the handle of its identity; and every identity in `at` is an object the
/// model knows, stamped at its handle with that identity, with the model's
/// number of slots, each null exactly where the model's is and otherwise
/// holding the handle of the identity the model put there.
pub open spec fn faithful(heap: Heap, roots: Roots, model: Model, at: Map<u64, Handle>) -> bool {
    &&& roots.stack().len() == model.stack().len()
    &&& forall|s: int|
        0 <= s < model.stack().len() ==> match #[trigger] model.stack()[s] {
            None => roots.stack()[s].0 == NULL_ADDR,
            Some(id) => at.dom().contains(id) && roots.stack()[s] == at[id],
        }
    &&& forall|g: int|
        0 <= g < model.bindings().len() ==> at.dom().contains(#[trigger] model.bindings()[g].1) && lookup(
            roots.globals(),
            model.bindings()[g].0,
        ) == Some(at[model.bindings()[g].1])
    &&& forall|id: u64| #[trigger]
        at.dom().contains(id) ==> {
            let h = at[id];
            &&& model.obj(id) is Some
            &&& stamped(heap, h, id)
            &&& heap.spec_nrefs(h) == model.obj(id)->Some_0.nrefs
            &&& forall|i: int|
                0 <= i < heap.spec_nrefs(h) ==> heap.slot_ok(h, i) && match #[trigger] model.fields_of(id)[i] {
                    None => heap.spec_field(h, i) == NULL_ADDR,
                    Some(c) => at.dom().contains(c) && heap.spec_field(h, i) == at[c].0,
                }
        }
}

/// An identity the shadow stack names stands in one of its slots.
proof fn lemma_stack_ids_has(s: Seq<Option<u64>>, x: u64)
    requires
        crate::model::stack_ids(s).contains(x),
    ensures
        exists|k: int| 0 <= k < s.len() && s[k] == Some(x),
    decreases s.len(),
{
    let t = crate::model::stack_ids(s.drop_last());
    if s.last() == Some(x) {
        assert(s[s.len() - 1] == Some(x));
    } else {
        if s.last() is Some {
            let i = choose|i: int| 0 <= i < t.push(s.last()->Some_0).len() && t.push(s.last()->Some_0)[i] == x;
            assert(i < t.len());
            assert(t[i] == x);
        }
        lemma_stack_ids_has(s.drop_last(), x);
        let k = choose|k: int| 0 <= k < s.drop_last().len() && s.drop_last()[k] == Some(x);
        assert(s[k] == Some(x));
    }
}

/// An identity in a slot of the shadow stack is among the ones it names.
proof fn lemma_stack_ids_in(s: Seq<Option<u64>>, k: int, x: u64)
    requires
        0 <= k < s.len(),
        s[k] == Some(x),
    ensures
        crate::model::stack_ids(s).contains(x),
    decreases s.len(),
{
    let t = crate::model::stack_ids(s.drop_last());
    if k == s.len() - 1 {
        assert(t.push(x)[t.len() as int] == x);
    } else {
        assert(s.drop_last()[k] == Some(x));
        lemma_stack_ids_in(s.drop_last(), k, x);
        let i = choose|i: int| 0 <= i < t.len() && t[i] == x;
        if s.last() is Some {
            assert(t.push(s.last()->Some_0)[i] == x);
        }
    }
}

/// What a slot of a reachable object names is reachable.
proof fn lemma_child_reachable(model: Model, p: u64, k: int)
    requires
        model.is_reachable(p),
        model.obj(p) is Some,
        0 <= k < model.fields_of(p).len(),
        model.fields_of(p)[k] is Some,
    ensures
        model.is_reachable(model.fields_of(p)[k]->Some_0),
{
    let c = model.fields_of(p)[k]->Some_0;
    let n = choose|n: nat| #[trigger] model.reach_within(n, p);
    assert(model.points_to(p, c));
    assert(model.reach_within(n + 1, c));
}

/// One stamp names one identity: two identities stamped at one handle are
/// the same.
proof fn lemma_stamp_unique(heap: Heap, h: Handle, a: u64, b: u64)
    requires
        stamped(heap, h, a),
        stamped(heap, h, b),
    ensures
        a == b,
{
}

/// The identity stamped into `h`, or why it has none.
fn identity(heap: &Heap, h: Handle, origin: &Origin) -> (r: Result<u64, Violation>)
    requires
        heap.wf(),
    ensures
        match r {
            Ok(id) => stamped(*heap, h, id),
            Err(_) => forall|id: u64| !stamped(*heap, h, id),
        },
        r matches Err(v) ==> !(v is NullMismatch),
{
    if !heap.in_bounds(h) {
        return Err(Violation::OutOfBounds { origin: origin.clone(), handle: h });
    }
    if !heap.data_ok(h, 0, STAMP_BYTES) {
        return Err(Violation::CorruptPayload { origin: origin.clone(), handle: h, found: 0 });
    }
    let magic = heap.data_u32(h, MAGIC_OFF);
    if magic != MAGIC {
        return Err(Violation::CorruptPayload { origin: origin.clone(), handle: h, found: magic });
    }
    Ok(heap.data_u64(h, ID_OFF))
}

/// Table position of the known identity `id`.
fn id_index(model: &Model, id: u64) -> (r: usize)
    requires
        model.known_id(id),
    ensures
        r == id - 1,
{
    let n = model.table_size();
    assert(id - 1 < n);
    (id - 1) as usize
}

/// Render the model's shortest root path to `target`, for diagnostics.
///
/// There is a path exactly when the model can reach `target` from its
/// roots; `None` when it cannot.
#[verifier::spinoff_prover]
#[verifier::rlimit(40)]
fn path_to(model: &Model, target: u64) -> (r: Option<String>)
    requires
        model.wf(),
    ensures
        r is Some <==> model.is_reachable(target),
{
    let n = model.table_size();
    let mut prev: Vec<Option<(Origin, u64)>> = Vec::new();
    let mut seen: Vec<bool> = Vec::new();
    let mut k: usize = 0;
    while k < n
        invariant
            k <= n,
            prev@.len() == k,
            seen@ == Seq::new(k as nat, |i: int| false),
            forall|j: int| 0 <= j < k ==> #[trigger] prev@[j] is None,
        decreases n - k,
    {
        prev.push(None);
        seen.push(false);
        k = k + 1;
        assert(seen@ =~= Seq::new(k as nat, |i: int| false));
    }
    proof {
        lemma_count_false_all(n as nat);
    }
    let mut queue: Vec<u64> = Vec::new();
    let depth = model.root_depth();
    let mut slot: usize = 0;
    while slot < depth
        invariant
            model.wf(),
            n == model.table_len(),
            depth == model.stack().len(),
            slot <= depth,
            prev@.len() == n,
            seen@.len() == n,
            queue@.len() + count_false(seen@) == n,
            forall|j: int| 0 <= j < queue@.len() ==> model.known_id(#[trigger] queue@[j]),
            forall|j: int| 0 <= j < queue@.len() ==> seen@[(#[trigger] queue@[j]) - 1],
            forall|j: int| 0 <= j < n && #[trigger] seen@[j] ==> model.is_reachable((j + 1) as u64),
            forall|j: int| 0 <= j < n && (#[trigger] prev@[j]) is Some ==> seen@[j],
            forall|j: int| 0 <= j < n && #[trigger] seen@[j] ==> prev@[j] is Some && queue@.contains((j + 1) as u64),
            forall|t: int|
                0 <= t < slot && (#[trigger] model.stack()[t]) is Some ==> model.known_id(model.stack()[t]->Some_0)
                    && seen@[model.stack()[t]->Some_0 - 1],
        decreases depth - slot,
    {
        if let Some(id) = model.root(slot) {
            let idx = id_index(model, id);
            if !seen[idx] {
                proof {
                    lemma_count_false_set(seen@, idx as int);
                    lemma_stack_ids_in(model.stack(), slot as int, id);
                    let st = crate::model::stack_ids(model.stack());
                    let i = choose|i: int| 0 <= i < st.len() && st[i] == id;
                    assert(model.root_id_seq()[i] == id);
                    assert(model.is_root_id(id));
                    assert(model.reach_within(0, id));
                }
                let ghost q0 = queue@;
                seen.set(idx, true);
                prev.set(idx, Some((Origin::RootSlot(slot), 0)));
                queue.push(id);
                proof {
                    assert forall|j: int| 0 <= j < n && #[trigger] seen@[j] implies prev@[j] is Some && queue@.contains(
                        (j + 1) as u64,
                    ) by {
                        if j == idx {
                            assert(queue@[q0.len() as int] == id);
                        } else {
                            let q = choose|q: int| 0 <= q < q0.len() && q0[q] == (j + 1) as u64;
                            assert(queue@[q] == q0[q]);
                        }
                    }
                }
            }
        }
        slot = slot + 1;
    }
    let globals = model.globals();
    let mut g: usize = 0;
    while g < globals.len()
        invariant
            model.wf(),
            n == model.table_len(),
            depth == model.stack().len(),
            globals@.map_values(|e: (String, u64)| (e.0@, e.1)) == model.bindings(),
            g <= globals@.len(),
            prev@.len() == n,
            seen@.len() == n,
            queue@.len() + count_false(seen@) == n,
            forall|j: int| 0 <= j < queue@.len() ==> model.known_id(#[trigger] queue@[j]),
            forall|j: int| 0 <= j < queue@.len() ==> seen@[(#[trigger] queue@[j]) - 1],
            forall|j: int| 0 <= j < n && #[trigger] seen@[j] ==> model.is_reachable((j + 1) as u64),
            forall|j: int| 0 <= j < n && (#[trigger] prev@[j]) is Some ==> seen@[j],
            forall|j: int| 0 <= j < n && #[trigger] seen@[j] ==> prev@[j] is Some && queue@.contains((j + 1) as u64),
            forall|t: int|
                0 <= t < depth && (#[trigger] model.stack()[t]) is Some ==> model.known_id(model.stack()[t]->Some_0)
                    && seen@[model.stack()[t]->Some_0 - 1],
            forall|t: int|
                0 <= t < g ==> model.known_id(#[trigger] model.bindings()[t].1) && seen@[model.bindings()[t].1 - 1],
        decreases globals@.len() - g,
    {
        let id = globals[g].1;
        assert(model.bindings()[g as int].1 == id);
        assert(model.known_id(id)) by {
            model.lemma_bindings_known(g as int);
        }
        let idx = id_index(model, id);
        if !seen[idx] {
            proof {
                lemma_count_false_set(seen@, idx as int);
                let st = crate::model::stack_ids(model.stack());
                assert(model.root_id_seq()[st.len() + g] == id);
                assert(model.is_root_id(id));
                assert(model.reach_within(0, id));
            }
            let ghost q0 = queue@;
            seen.set(idx, true);
            let name = globals[g].0.clone();
            prev.set(idx, Some((Origin::Global(name), 0)));
            queue.push(id);
            proof {
                assert forall|j: int| 0 <= j < n && #[trigger] seen@[j] implies prev@[j] is Some && queue@.contains(
                    (j + 1) as u64,
                ) by {
                    if j == idx {
                        assert(queue@[q0.len() as int] == id);
                    } else {
                        let q = choose|q: int| 0 <= q < q0.len() && q0[q] == (j + 1) as u64;
                        assert(queue@[q] == q0[q]);
                    }
                }
            }
        }
        g = g + 1;
    }
    proof {
        assert forall|x: u64| #[trigger] model.is_root_id(x) implies model.known_id(x) && seen@[x - 1] by {
            let rs = model.root_id_seq();
            let st = crate::model::stack_ids(model.stack());
            let i = choose|i: int| 0 <= i < rs.len() && rs[i] == x;
            if i < st.len() {
                assert(st[i] == x);
                assert(st.contains(x));
                lemma_stack_ids_has(model.stack(), x);
                let t = choose|t: int| 0 <= t < model.stack().len() && model.stack()[t] == Some(x);
                assert(model.stack()[t] is Some);
            } else {
                let gi = i - st.len();
                assert(model.bindings()[gi].1 == x);
            }
        }
    }
    let mut head: usize = 0;
    let mut found: bool = false;
    while head < queue.len()
        invariant_except_break
            !found,
        invariant
            model.wf(),
            n == model.table_len(),
            prev@.len() == n,
            seen@.len() == n,
            head <= queue@.len(),
            queue@.len() + count_false(seen@) == n,
            forall|j: int| 0 <= j < queue@.len() ==> model.known_id(#[trigger] queue@[j]),
            forall|j: int| 0 <= j < queue@.len() ==> seen@[(#[trigger] queue@[j]) - 1],
            forall|j: int| 0 <= j < n && #[trigger] seen@[j] ==> model.is_reachable((j + 1) as u64),
            forall|j: int| 0 <= j < n && (#[trigger] prev@[j]) is Some ==> seen@[j],
            forall|j: int| 0 <= j < n && #[trigger] seen@[j] ==> prev@[j] is Some && queue@.contains((j + 1) as u64),
            forall|x: u64| #[trigger] model.is_root_id(x) ==> model.known_id(x) && seen@[x - 1],
            forall|q: int, c: u64|
                0 <= q < head && #[trigger] model.points_to(queue@[q], c) ==> model.known_id(c) && seen@[c - 1],
        ensures
            found ==> model.known_id(target) && seen@[target - 1],
            !found ==> head == queue@.len(),
        decreases n - head,
    {
        let id = queue[head];
        proof {
            assert(seen@[id - 1]);
            assert(model.is_reachable((id - 1 + 1) as u64));
        }
        if id == target {
            found = true;
            break;
        }
        let ghost hq: int = head as int;
        head = head + 1;
        if let Some(o) = model.get(id) {
            proof {
                model.lemma_obj_shape(id);
            }
            let mut i: usize = 0;
            while i < o.fields.len()
                invariant
                    model.wf(),
                    n == model.table_len(),
                    model.obj(id) == Some(*o),
                    o.fields@.len() == o.nrefs,
                    id == queue@[hq],
                    0 <= hq,
                    hq + 1 == head,
                    prev@.len() == n,
                    seen@.len() == n,
                    head <= queue@.len(),
                    queue@.len() + count_false(seen@) == n,
                    i <= o.fields@.len(),
                    forall|j: int| 0 <= j < queue@.len() ==> model.known_id(#[trigger] queue@[j]),
                    forall|j: int| 0 <= j < queue@.len() ==> seen@[(#[trigger] queue@[j]) - 1],
                    model.is_reachable(id),
                    forall|j: int| 0 <= j < n && #[trigger] seen@[j] ==> model.is_reachable((j + 1) as u64),
                    forall|j: int| 0 <= j < n && (#[trigger] prev@[j]) is Some ==> seen@[j],
                    forall|j: int|
                        0 <= j < n && #[trigger] seen@[j] ==> prev@[j] is Some && queue@.contains((j + 1) as u64),
                    forall|x: u64| #[trigger] model.is_root_id(x) ==> model.known_id(x) && seen@[x - 1],
                    forall|q: int, c: u64|
                        0 <= q < hq && #[trigger] model.points_to(queue@[q], c) ==> model.known_id(c) && seen@[c - 1],
                    forall|j: int|
                        0 <= j < i && (#[trigger] o.fields@[j]) is Some ==> model.known_id(o.fields@[j]->Some_0)
                            && seen@[o.fields@[j]->Some_0 - 1],
                decreases o.fields@.len() - i,
            {
                if let Some(c) = o.fields[i] {
                    assert(model.known_id(c)) by {
                        model.lemma_fields_known(id, i as int);
                    }
                    let cidx = id_index(model, c);
                    if !seen[cidx] && i < 0x10000 {
                        proof {
                            lemma_count_false_set(seen@, cidx as int);
                            assert(model.fields_of(id)[i as int] == Some(c));
                            lemma_child_reachable(*model, id, i as int);
                        }
                        let ghost q0 = queue@;
                        assert(0 <= hq < q0.len());
                        seen.set(cidx, true);
                        prev.set(cidx, Some((Origin::Field { parent: id, index: i as u16 }, id)));
                        queue.push(c);
                        proof {
                            assert(queue@ == q0.push(c));
                            assert(queue@[hq] == q0[hq]);
                            assert forall|j: int| 0 <= j < n && #[trigger] seen@[j] implies prev@[j] is Some
                                && queue@.contains((j + 1) as u64) by {
                                if j == cidx {
                                    assert(queue@[q0.len() as int] == c);
                                } else {
                                    let q = choose|q: int| 0 <= q < q0.len() && q0[q] == (j + 1) as u64;
                                    assert(queue@[q] == q0[q]);
                                }
                            }
                            assert forall|q: int, d: u64|
                                0 <= q < hq && #[trigger] model.points_to(queue@[q], d) implies model.known_id(d)
                                && seen@[d - 1] by {
                                assert(queue@[q] == q0[q]);
                            }
                        }
                    }
                }
                i = i + 1;
            }
            proof {
                assert forall|q: int, c: u64|
                    0 <= q < head && #[trigger] model.points_to(queue@[q], c) implies model.known_id(c)
                    && seen@[c - 1] by {
                    if q == hq {
                        let kk = choose|kk: int|
                            0 <= kk < model.fields_of(id).len() && #[trigger] model.fields_of(id)[kk] == Some(c);
                        assert(o.fields@[kk] is Some);
                    }
                }
            }
        } else {
            proof {
                assert forall|q: int, c: u64|
                    0 <= q < head && #[trigger] model.points_to(queue@[q], c) implies model.known_id(c)
                    && seen@[c - 1] by {
                    if q == hq {
                        assert(model.obj(id) is None);
                    }
                }
            }
        }
    }
    if !found {
        proof {
            assert(model.closed_set(seen@)) by {
                assert forall|p: u64, c: u64|
                    model.known_id(p) && seen@[p - 1] && #[trigger] model.points_to(p, c) implies model.known_id(c)
                    && seen@[c - 1] by {
                    assert(queue@.contains(((p - 1) + 1) as u64));
                    let q = choose|q: int| 0 <= q < queue@.len() && queue@[q] == ((p - 1) + 1) as u64;
                    assert(model.points_to(queue@[q], c));
                }
            }
            if model.is_reachable(target) {
                let nn = choose|nn: nat| #[trigger] model.reach_within(nn, target);
                model.lemma_reach_in_closed(seen@, nn, target);
            }
        }
    }
    if target == 0 || target - 1 >= n as u64 {
        return None;
    }
    if prev[(target - 1) as usize].is_none() {
        return None;
    }
    proof {
        assert(seen@[target - 1]);
        assert(model.is_reachable((target - 1 + 1) as u64));
    }
    let mut steps: Vec<String> = Vec::new();
    let mut cur = target;
    let mut fuel: usize = n;
    while fuel > 0
        invariant
            prev@.len() == n,
        decreases fuel,
    {
        fuel = fuel - 1;
        if cur == 0 || cur - 1 >= n as u64 {
            break;
        }
        match &prev[(cur - 1) as usize] {
            Some((origin, parent)) => {
                steps.push(origin_step(origin));
                match origin {
                    Origin::Field { .. } => {
                        cur = *parent;
                    },
                    _ => {
                        break;
                    },
                }
            },
            None => {
                break;
            },
        }
    }
    let mut out = String::new();
    let mut j = steps.len();
    while j > 0
        invariant
            j <= steps@.len(),
        decreases j,
    {
        j = j - 1;
        out.append(steps[j].as_str());
        if j > 0 {
            out.append(" -> ");
        }
    }
    Some(out)
}

/// The smaller of `a` and `b`.
pub open spec fn lesser(a: int, b: int) -> int {
    if a < b {
        a
    } else {
        b
    }
}

/// `v`, if it is a null mismatch reported for a root slot, names a slot
/// below both depths and says which side is wrong: `expected_null` exactly
/// when the model's slot is empty, in which case the collector's slot holds
/// a handle, and otherwise the collector's slot is null.
pub open spec fn root_null_sound(v: Violation, stack: Seq<Handle>, mstack: Seq<Option<u64>>) -> bool {
    match v {
        Violation::NullMismatch { origin, expected_null } => match origin {
            Origin::RootSlot(s) => {
                &&& s < stack.len()
                &&& s < mstack.len()
                &&& expected_null == (mstack[s as int] is None)
                &&& expected_null ==> stack[s as int].0 != NULL_ADDR
                &&& !expected_null ==> stack[s as int].0 == NULL_ADDR
            },
            _ => true,
        },
        _ => true,
    }
}

/// `v`, if it is a null mismatch reported for a slot of an object, names a
/// slot the model's object has, and `expected_null` exactly when the model
/// leaves that slot empty.
pub open spec fn field_null_sound(v: Violation, model: Model) -> bool {
    match v {
        Violation::NullMismatch { origin, expected_null } => match origin {
            Origin::Field { parent, index } => {
                &&& model.obj(parent) is Some
                &&& index < model.fields_of(parent).len()
                &&& expected_null == (model.fields_of(parent)[index as int] is None)
            },
            _ => true,
        },
        _ => true,
    }
}

/// Every null mismatch `r` reports for a slot of an object is right about
/// which side is wrong.
pub open spec fn fields_checked(r: Report, model: Model) -> bool {
    forall|i: int| 0 <= i < r.violations@.len() ==> field_null_sound(#[trigger] r.violations@[i], model)
}

/// Whether root slot `s` is null on exactly one side, and if so whether
/// the model expected it null.
pub open spec fn root_null_expected(stack: Seq<Handle>, mstack: Seq<Option<u64>>, s: int) -> Option<bool> {
    if mstack[s] is None && stack[s].0 != NULL_ADDR {
        Some(true)
    } else if mstack[s] is Some && stack[s].0 == NULL_ADDR {
        Some(false)
    } else {
        None
    }
}

/// Every root-slot null mismatch in `r` is right about which side is wrong,
/// and, unless violations were dropped, every slot below `upto` that is null
/// on exactly one side has its mismatch in `r`.
pub open spec fn roots_checked(r: Report, stack: Seq<Handle>, mstack: Seq<Option<u64>>, upto: int) -> bool {
    &&& forall|i: int| 0 <= i < r.violations@.len() ==> root_null_sound(#[trigger] r.violations@[i], stack, mstack)
    &&& r.omitted == 0 ==> forall|s: int|
        0 <= s < upto && (#[trigger] root_null_expected(stack, mstack, s)) is Some ==> r.violations@.contains(
            (Violation::NullMismatch {
                origin: Origin::RootSlot(s as usize),
                expected_null: root_null_expected(stack, mstack, s)->Some_0,
            }),
        )
}

/// The first violation `r` records is that the shadow stack is `collector`
/// deep where the model's is `model` deep.
pub open spec fn depth_reported(r: Report, collector: int, model: int) -> bool {
    &&& r.violations@.len() >= 1
    &&& r.violations@[0] == (Violation::RootStackDepth { collector: collector as usize, model: model as usize })
}

/// Walk the real heap from the real roots and compare it against the model.
///
/// The walk reads reference slots only through the collector's own
/// `read_field`, and leaves the collector exactly as it found it.
///
/// A clean report certifies that the heap agrees with the model; and a
/// heap that represents the model faithfully gets a clean report. Every
/// root slot below both depths that is null on exactly one side is
/// reported as a null mismatch that says which side is wrong, and no such
/// report is made for any other slot.
pub fn verify<C: Collector>(gc: &mut C, model: &Model) -> (r: Report)
    requires
        old(gc).gc_inv(),
        model.wf(),
    ensures
        *final(gc) == *old(gc),
        r.is_clean() ==> agrees(old(gc).gc_heap(), old(gc).gc_roots(), *model),
        (exists|at: Map<u64, Handle>| faithful(old(gc).gc_heap(), old(gc).gc_roots(), *model, at)) ==> r.is_clean(),
        r.violations@.len() <= MAX_VIOLATIONS,
        fields_checked(r, *model),
        roots_checked(
            r,
            old(gc).gc_roots().stack(),
            model.stack(),
            lesser(old(gc).gc_roots().stack().len() as int, model.stack().len() as int),
        ),
        old(gc).gc_roots().stack().len() != model.stack().len() ==> !r.is_clean() && depth_reported(
            r,
            old(gc).gc_roots().stack().len() as int,
            model.stack().len() as int,
        ),
{
    let ghost g0 = *gc;
    let ghost heap0 = gc.gc_heap();
    let ghost ok = exists|at: Map<u64, Handle>| faithful(heap0, g0.gc_roots(), *model, at);
    let ghost at = choose|at: Map<u64, Handle>| faithful(heap0, g0.gc_roots(), *model, at);
    proof {
        gc.lemma_inv_heap();
    }
    let mut report = Report { violations: Vec::new(), omitted: 0, visited: 0 };
    let n = model.table_size();
    let cap = gc.heap().capacity();
    let nv = (cap / 16) as usize;
    // The first handle each identity was found at, and whether it was also
    // found somewhere else.
    let mut first: Vec<u32> = Vec::new();
    let mut dup: Vec<bool> = Vec::new();
    let mut k: usize = 0;
    while k < n
        invariant
            k <= n,
            first@.len() == k,
            dup@.len() == k,
            forall|j: int| 0 <= j < k ==> #[trigger] first@[j] == NULL_ADDR,
            forall|j: int| 0 <= j < k ==> !#[trigger] dup@[j],
        decreases n - k,
    {
        first.push(NULL_ADDR);
        dup.push(false);
        k = k + 1;
    }
    let mut visited: Vec<bool> = Vec::new();
    let mut k: usize = 0;
    while k < nv
        invariant
            k <= nv,
            visited@ == Seq::new(k as nat, |i: int| false),
        decreases nv - k,
    {
        visited.push(false);
        k = k + 1;
        assert(visited@ =~= Seq::new(k as nat, |i: int| false));
    }
    proof {
        lemma_count_false_all(nv as nat);
    }
    let mut sightings: Vec<(u64, Handle)> = Vec::new();
    let mut queue: Vec<(Handle, Origin, u64)> = Vec::new();

    let cdepth = gc.roots().depth();
    let mdepth = model.root_depth();
    proof {
        if ok {
            assert(faithful(heap0, g0.gc_roots(), *model, at));
        }
    }
    if cdepth != mdepth {
        report.record(Violation::RootStackDepth { collector: cdepth, model: mdepth });
    }
    let depth = if cdepth < mdepth {
        cdepth
    } else {
        mdepth
    };
    // Where each rooted handle sits in the queue.
    let ghost mut spos: Seq<int> = Seq::empty();
    let mut slot: usize = 0;
    while slot < depth
        invariant
            cdepth != mdepth ==> depth_reported(report, cdepth as int, mdepth as int),
            roots_checked(report, g0.gc_roots().stack(), model.stack(), slot as int),
            fields_checked(report, *model),
            report.violations@.len() <= MAX_VIOLATIONS,
            *gc == g0,
            g0.gc_inv(),
            model.wf(),
            depth <= cdepth,
            depth <= mdepth,
            cdepth == g0.gc_roots().stack().len(),
            mdepth == model.stack().len(),
            slot <= depth,
            spos.len() == slot,
            report.violations@.len() <= MAX_VIOLATIONS,
            cdepth != mdepth ==> !report.is_clean(),
            ok ==> faithful(heap0, g0.gc_roots(), *model, at),
            heap0 == g0.gc_heap(),
            ok ==> report.is_clean(),
            ok ==> forall|j: int|
                0 <= j < queue@.len() ==> at.dom().contains(#[trigger] queue@[j].2) && queue@[j].0 == at[queue@[j].2],
            forall|s: int|
                0 <= s < slot ==> report.is_clean() ==> match #[trigger] model.stack()[s] {
                    None => g0.gc_roots().stack()[s].0 == NULL_ADDR,
                    Some(id) => {
                        &&& 0 <= spos[s] < queue@.len()
                        &&& queue@[spos[s]].0 == g0.gc_roots().stack()[s]
                        &&& queue@[spos[s]].2 == id
                    },
                },
        decreases depth - slot,
    {
        let h = gc.roots().get(RootSlot(slot));
        let expected = model.root(slot);
        let ghost pos = queue@.len() as int;
        proof {
            if ok {
                assert(match model.stack()[slot as int] {
                    None => g0.gc_roots().stack()[slot as int].0 == NULL_ADDR,
                    Some(id) => at.dom().contains(id) && g0.gc_roots().stack()[slot as int] == at[id],
                });
            }
        }
        let ghost rb = report;
        let ghost st = g0.gc_roots().stack();
        let ghost ms = model.stack();
        match expected {
            None => {
                if !h.is_null() {
                    report.record(Violation::NullMismatch { origin: Origin::RootSlot(slot), expected_null: true });
                }
            },
            Some(id) => {
                if h.is_null() {
                    report.record(Violation::NullMismatch { origin: Origin::RootSlot(slot), expected_null: false });
                } else {
                    queue.push((h, Origin::RootSlot(slot), id));
                }
            },
        }
        proof {
            spos = spos.push(pos);
            assert(h == st[slot as int]);
            assert(expected == ms[slot as int]);
            assert(roots_checked(report, st, ms, slot as int));
            if report.omitted == 0 {
                assert forall|t: int|
                    0 <= t < slot + 1 && (#[trigger] root_null_expected(st, ms, t)) is Some implies report.violations@.contains(
                    (Violation::NullMismatch {
                        origin: Origin::RootSlot(t as usize),
                        expected_null: root_null_expected(st, ms, t)->Some_0,
                    }),
                ) by {
                    if t == slot {
                        let w = (Violation::NullMismatch {
                            origin: Origin::RootSlot(t as usize),
                            expected_null: root_null_expected(st, ms, t)->Some_0,
                        });
                        assert(rb.violations@.len() < MAX_VIOLATIONS);
                        assert(report.violations@[report.violations@.len() - 1] == w);
                    }
                }
            }
        }
        slot = slot + 1;
    }

    let globals = model.globals();
    // Where each global's handle sits in the queue.
    let ghost mut gpos: Seq<int> = Seq::empty();
    let mut g: usize = 0;
    while g < globals.len()
        invariant
            cdepth != mdepth ==> depth_reported(report, cdepth as int, mdepth as int),
            roots_checked(report, g0.gc_roots().stack(), model.stack(), depth as int),
            fields_checked(report, *model),
            report.violations@.len() <= MAX_VIOLATIONS,
            *gc == g0,
            g0.gc_inv(),
            model.wf(),
            globals@.map_values(|e: (String, u64)| (e.0@, e.1)) == model.bindings(),
            g <= globals@.len(),
            gpos.len() == g,
            report.violations@.len() <= MAX_VIOLATIONS,
            ok ==> faithful(heap0, g0.gc_roots(), *model, at),
            heap0 == g0.gc_heap(),
            ok ==> report.is_clean(),
            ok ==> forall|j: int|
                0 <= j < queue@.len() ==> at.dom().contains(#[trigger] queue@[j].2) && queue@[j].0 == at[queue@[j].2],
            cdepth == g0.gc_roots().stack().len(),
            mdepth == model.stack().len(),
            report.is_clean() ==> depth == mdepth,
            spos.len() == depth,
            (forall|s: int|
                0 <= s < depth ==> report.is_clean() ==> match #[trigger] model.stack()[s] {
                    None => g0.gc_roots().stack()[s].0 == NULL_ADDR,
                    Some(id) => {
                        &&& 0 <= spos[s] < queue@.len()
                        &&& queue@[spos[s]].0 == g0.gc_roots().stack()[s]
                        &&& queue@[spos[s]].2 == id
                    },
                }),
            cdepth != mdepth ==> !report.is_clean(),
            forall|j: int|
                0 <= j < g ==> report.is_clean() ==> {
                    &&& lookup(g0.gc_roots().globals(), #[trigger] model.bindings()[j].0) matches Some(h)
                    &&& 0 <= gpos[j] < queue@.len()
                    &&& queue@[gpos[j]].0 == h
                    &&& queue@[gpos[j]].2 == model.bindings()[j].1
                },
        decreases globals@.len() - g,
    {
        let ghost pos = queue@.len() as int;
        let id = globals[g].1;
        assert(model.bindings()[g as int].1 == id);
        assert(model.bindings()[g as int].0 == globals@[g as int].0@);
        let h = gc.roots().global(globals[g].0.as_str());
        proof {
            if ok {
                assert(at.dom().contains(model.bindings()[g as int].1));
                assert(lookup(g0.gc_roots().globals(), model.bindings()[g as int].0) == Some(at[id]));
                assert(h == at[id]);
                assert(stamped(heap0, at[id], id));
            }
        }
        if h.is_null() {
            report.record(Violation::MissingGlobal { name: globals[g].0.clone() });
        } else {
            queue.push((h, Origin::Global(globals[g].0.clone()), id));
        }
        proof {
            gpos = gpos.push(pos);
        }
        g = g + 1;
    }
    let ghost qroots = queue@.len();
    let ghost q0 = queue@;
    let ghost clean0 = report.is_clean();

    let mut head: usize = 0;
    while head < queue.len()
        invariant
            cdepth != mdepth ==> depth_reported(report, cdepth as int, mdepth as int),
            roots_checked(report, g0.gc_roots().stack(), model.stack(), depth as int),
            fields_checked(report, *model),
            report.violations@.len() <= MAX_VIOLATIONS,
            *gc == g0,
            g0.gc_inv(),
            heap0 == g0.gc_heap(),
            heap0.wf(),
            model.wf(),
            n == model.table_len(),
            nv == heap0.cap() / 16,
            first@.len() == n,
            dup@.len() == n,
            visited@.len() == nv,
            head <= queue@.len(),
            qroots <= queue@.len(),
            report.violations@.len() <= MAX_VIOLATIONS,
            forall|j: int|
                0 <= j < n && #[trigger] first@[j] != NULL_ADDR ==> stamped(
                    heap0,
                    Handle(first@[j]),
                    (j + 1) as u64,
                ),
            forall|j: int|
                0 <= j < head ==> report.is_clean() ==> stamped(
                    heap0,
                    (#[trigger] queue@[j]).0,
                    queue@[j].2,
                ),
            forall|j: int| 0 <= j < qroots ==> #[trigger] queue@[j] == q0[j],
            report.is_clean() ==> clean0,
            ok ==> faithful(heap0, g0.gc_roots(), *model, at),
            ok ==> report.is_clean(),
            ok ==> forall|j: int|
                0 <= j < queue@.len() ==> at.dom().contains(#[trigger] queue@[j].2) && queue@[j].0 == at[queue@[j].2],
            ok ==> forall|j: int|
                0 <= j < n && #[trigger] first@[j] != NULL_ADDR ==> at.dom().contains((j + 1) as u64) && first@[j]
                    == at[(j + 1) as u64].0,
            ok ==> forall|j: int| 0 <= j < n ==> !#[trigger] dup@[j],
            ok ==> forall|j: int| 0 <= j < head ==> first@[(#[trigger] queue@[j]).2 - 1] != NULL_ADDR,
            ok ==> forall|p: u64, k: int|
                #![trigger first@[p - 1], model.fields_of(p)[k]]
                1 <= p <= n && first@[p - 1] != NULL_ADDR && 0 <= k < model.fields_of(p).len()
                    && model.fields_of(p)[k] is Some ==> exists|q: int|
                    0 <= q < queue@.len() && #[trigger] queue@[q].2 == model.fields_of(p)[k]->Some_0,
            ok ==> forall|id: u64|
                #![trigger at.dom().contains(id), first@[id - 1]]
                at.dom().contains(id) && first@[id - 1] == NULL_ADDR ==> !visited@[(at[id].0 / 16) as int],
        decreases count_false(visited@), queue@.len() - head,
    {
        let h = queue[head].0;
        let want = queue[head].2;
        let origin = queue[head].1.clone();
        let ghost j0 = head as int;
        let ghost first0 = first@;
        head = head + 1;
        proof {
            if ok {
                assert(at.dom().contains(queue@[j0].2) && queue@[j0].0 == at[queue@[j0].2]);
                assert(stamped(heap0, h, want));
            }
        }
        let found = match identity(gc.heap(), h, &origin) {
            Ok(id) => id,
            Err(v) => {
                proof {
                    if ok {
                        assert(!stamped(heap0, h, want));
                    }
                }
                report.record(v);
                continue;
            },
        };
        proof {
            if ok {
                lemma_stamp_unique(heap0, h, found, want);
            }
        }
        if want != found {
            report.record(Violation::WrongObject { origin: origin.clone(), handle: h, expected: want, found });
        }
        let m = match model.get(found) {
            Some(m) => m,
            None => {
                proof {
                    if ok {
                        assert(model.obj(found) is Some);
                    }
                }
                report.record(Violation::UnknownIdentity { origin, handle: h, id: found });
                continue;
            },
        };
        proof {
            model.lemma_obj_shape(found);
        }
        let idx = id_index(model, found);
        let ghost was_new = first@[idx as int] == NULL_ADDR;
        proof {
            if ok && was_new {
                assert(at.dom().contains(found) && first@[found - 1] == NULL_ADDR);
                assert(!visited@[(at[found].0 / 16) as int]);
            }
        }
        if first[idx] == NULL_ADDR {
            first.set(idx, h.0);
        } else if first[idx] != h.0 {
            proof {
                if ok {
                    assert(first@[idx as int] == at[(idx + 1) as u64].0);
                    assert((idx + 1) as u64 == found);
                }
            }
            dup.set(idx, true);
        }
        proof {
            if ok {
                assert(h.0 != NULL_ADDR);
                assert(first@[idx as int] == h.0);
                assert forall|j: int| 0 <= j < n && #[trigger] first@[j] != NULL_ADDR implies at.dom().contains(
                    (j + 1) as u64,
                ) && first@[j] == at[(j + 1) as u64].0 by {
                    if j == idx {
                        assert((j + 1) as u64 == found);
                    }
                }
            }
        }
        sightings.push((found, h));
        let vi = (h.0 / 16) as usize;
        if visited[vi] {
            proof {
                if ok {
                    assert(!was_new);
                    assert forall|j: int| 0 <= j < head implies first@[(#[trigger] queue@[j]).2 - 1] != NULL_ADDR by {
                        if j == j0 {
                            assert(queue@[j].2 - 1 == idx);
                        }
                    }
                }
            }
            continue;
        }
        proof {
            lemma_count_false_set(visited@, vi as int);
        }
        let ghost vis0 = visited@;
        visited.set(vi, true);
        proof {
            if ok {
                assert forall|id: u64|
                    #![trigger at.dom().contains(id), first@[id - 1]]
                    at.dom().contains(id) && first@[id - 1] == NULL_ADDR implies !visited@[(at[id].0 / 16) as int] by {
                    assert(id != found);
                    model.lemma_obj_shape(id);
                    assert(first0[id - 1] == NULL_ADDR);
                    if at[id].0 / 16 == vi {
                        assert(stamped(heap0, at[id], id));
                        assert(at[id].0 % 16 == 0 && h.0 % 16 == 0);
                        assert(at[id].0 == h.0) by (nonlinear_arith)
                            requires
                                at[id].0 % 16 == 0,
                                h.0 % 16 == 0,
                                at[id].0 / 16 == h.0 / 16,
                        ;
                        assert(at[id] == h);
                        lemma_stamp_unique(heap0, h, id, found);
                    }
                }
                assert forall|j: int| 0 <= j < head implies first@[(#[trigger] queue@[j]).2 - 1] != NULL_ADDR by {
                    if j == j0 {
                        assert(queue@[j].2 - 1 == idx);
                    } else {
                        assert(at.dom().contains(queue@[j].2));
                        model.lemma_obj_shape(queue@[j].2);
                        assert(first0[queue@[j].2 - 1] != NULL_ADDR);
                    }
                }
            }
        }

        let nrefs = gc.heap().nrefs(h);
        if nrefs != m.nrefs {
            proof {
                if ok {
                    assert(heap0.spec_nrefs(at[found]) == model.obj(found)->Some_0.nrefs);
                }
            }
            report.record(Violation::ShapeMismatch { id: found, handle: h, expected_nrefs: m.nrefs, found_nrefs: nrefs });
            continue;
        }
        let ghost qlen0 = queue@.len();
        let mut i: u16 = 0;
        while i < nrefs
            invariant
                cdepth != mdepth ==> depth_reported(report, cdepth as int, mdepth as int),
                roots_checked(report, g0.gc_roots().stack(), model.stack(), depth as int),
                fields_checked(report, *model),
                report.violations@.len() <= MAX_VIOLATIONS,
                *gc == g0,
                g0.gc_inv(),
                heap0 == g0.gc_heap(),
                heap0.wf(),
                model.wf(),
                model.obj(found) == Some(*m),
                m.fields@.len() == nrefs,
                head <= queue@.len(),
                qroots <= queue@.len(),
                report.violations@.len() <= MAX_VIOLATIONS,
                forall|j: int|
                    0 <= j < head ==> report.is_clean() ==> stamped(
                        heap0,
                        (#[trigger] queue@[j]).0,
                        queue@[j].2,
                    ),
                forall|j: int| 0 <= j < qroots ==> #[trigger] queue@[j] == q0[j],
                report.is_clean() ==> clean0,
                i <= nrefs,
                n == model.table_len(),
                first@.len() == n,
                dup@.len() == n,
                nrefs == heap0.spec_nrefs(h),
                ok ==> faithful(heap0, g0.gc_roots(), *model, at),
                ok ==> report.is_clean(),
                ok ==> at.dom().contains(found) && h == at[found],
                ok ==> found - 1 == idx && first@[idx as int] != NULL_ADDR,
                ok ==> forall|j: int|
                    0 <= j < queue@.len() ==> at.dom().contains(#[trigger] queue@[j].2) && queue@[j].0
                        == at[queue@[j].2],
                ok ==> forall|j: int|
                    0 <= j < n && #[trigger] first@[j] != NULL_ADDR ==> at.dom().contains((j + 1) as u64)
                        && first@[j] == at[(j + 1) as u64].0,
                ok ==> forall|j: int| 0 <= j < n ==> !#[trigger] dup@[j],
                ok ==> forall|j: int| 0 <= j < head ==> first@[(#[trigger] queue@[j]).2 - 1] != NULL_ADDR,
                ok ==> forall|p: u64, k: int|
                    #![trigger first@[p - 1], model.fields_of(p)[k]]
                    1 <= p <= n && first@[p - 1] != NULL_ADDR && (p != found || k < i) && 0 <= k
                        < model.fields_of(p).len() && model.fields_of(p)[k] is Some ==> exists|q: int|
                        0 <= q < queue@.len() && #[trigger] queue@[q].2 == model.fields_of(p)[k]->Some_0,
                ok ==> forall|id: u64|
                    #![trigger at.dom().contains(id), first@[id - 1]]
                    at.dom().contains(id) && first@[id - 1] == NULL_ADDR ==> !visited@[(at[id].0 / 16) as int],
            decreases nrefs - i,
        {
            let origin = Origin::Field { parent: found, index: i };
            if !gc.heap().field_ok(h, i) {
                proof {
                    if ok {
                        assert(heap0.slot_ok(at[found], i as int));
                    }
                }
                report.record(Violation::OutOfBounds { origin, handle: h });
                i = nrefs;
                continue;
            }
            let child = gc.read_field(h, i);
            let ghost qb = queue@;
            proof {
                if ok {
                    assert(m.fields@[i as int] == model.fields_of(found)[i as int]);
                    assert(heap0.slot_ok(at[found], i as int) && match model.fields_of(found)[i as int] {
                        None => heap0.spec_field(at[found], i as int) == NULL_ADDR,
                        Some(c) => at.dom().contains(c) && heap0.spec_field(at[found], i as int) == at[c].0,
                    });
                }
            }
            match m.fields[i as usize] {
                None => {
                    if !child.is_null() {
                        report.record(Violation::NullMismatch { origin, expected_null: true });
                    }
                },
                Some(want_id) => {
                    proof {
                        if ok {
                            assert(child == at[want_id]);
                            assert(stamped(heap0, at[want_id], want_id));
                        }
                    }
                    if child.is_null() {
                        report.record(Violation::NullMismatch { origin, expected_null: false });
                    } else {
                        queue.push((child, origin, want_id));
                        proof {
                            if ok {
                                assert(queue@[qb.len() as int].2 == want_id);
                            }
                        }
                    }
                },
            }
            proof {
                if ok {
                    assert forall|p: u64, k: int|
                        #![trigger first@[p - 1], model.fields_of(p)[k]]
                        1 <= p <= n && first@[p - 1] != NULL_ADDR && (p != found || k < i + 1) && 0 <= k
                            < model.fields_of(p).len() && model.fields_of(p)[k] is Some implies exists|q: int|
                        0 <= q < queue@.len() && #[trigger] queue@[q].2 == model.fields_of(p)[k]->Some_0 by {
                        if p == found && k == i {
                            assert(queue@[qb.len() as int].2 == model.fields_of(p)[k]->Some_0);
                        } else {
                            let q = choose|q: int| 0 <= q < qb.len() && #[trigger] qb[q].2 == model.fields_of(p)[k]->Some_0;
                            assert(queue@[q] == qb[q]);
                        }
                    }
                }
            }
            i = i + 1;
        }
    }

    let ghost clean1 = report.is_clean();
    proof {
        if ok {
            assert(head == queue@.len());
            let seen = Seq::new(n as nat, |j: int| first@[j] != NULL_ADDR);
            assert forall|x: u64| #[trigger] model.is_root_id(x) implies model.known_id(x) && seen[x - 1] by {
                let rs = model.root_id_seq();
                let st = crate::model::stack_ids(model.stack());
                let i = choose|i: int| 0 <= i < rs.len() && rs[i] == x;
                if i < st.len() {
                    assert(st[i] == x);
                    assert(st.contains(x));
                    lemma_stack_ids_has(model.stack(), x);
                    let k = choose|k: int| 0 <= k < model.stack().len() && model.stack()[k] == Some(x);
                    let jq = spos[k];
                    assert(queue@[jq] == q0[jq]);
                    assert(queue@[jq].2 == x);
                    assert(first@[(queue@[jq]).2 - 1] != NULL_ADDR);
                    assert(at.dom().contains(queue@[jq].2));
                } else {
                    let gi = i - st.len();
                    assert(model.bindings()[gi].1 == x);
                    let jq = gpos[gi];
                    assert(queue@[jq] == q0[jq]);
                    assert(queue@[jq].2 == x);
                    assert(first@[(queue@[jq]).2 - 1] != NULL_ADDR);
                    assert(at.dom().contains(queue@[jq].2));
                }
                model.lemma_obj_shape(x);
            }
            assert forall|p: u64, c: u64|
                model.known_id(p) && seen[p - 1] && #[trigger] model.points_to(p, c) implies model.known_id(c)
                && seen[c - 1] by {
                let k = choose|k: int|
                    0 <= k < model.fields_of(p).len() && #[trigger] model.fields_of(p)[k] == Some(c);
                assert(first@[p - 1] != NULL_ADDR);
                assert(model.fields_of(p)[k] is Some);
                let q = choose|q: int| 0 <= q < queue@.len() && #[trigger] queue@[q].2 == model.fields_of(p)[k]->Some_0;
                assert(queue@[q].2 == c);
                assert(first@[(queue@[q]).2 - 1] != NULL_ADDR);
                assert(at.dom().contains(queue@[q].2));
                model.lemma_obj_shape(c);
            }
            assert(model.closed_set(seen));
            assert forall|id: u64| #[trigger] model.is_reachable(id) implies model.known_id(id) && first@[id - 1]
                != NULL_ADDR by {
                let nn = choose|nn: nat| #[trigger] model.reach_within(nn, id);
                model.lemma_reach_in_closed(seen, nn, id);
            }
        }
    }
    // Identities found at more than one address.
    let mut idx: usize = 0;
    while idx < n
        invariant
            cdepth != mdepth ==> depth_reported(report, cdepth as int, mdepth as int),
            roots_checked(report, g0.gc_roots().stack(), model.stack(), depth as int),
            fields_checked(report, *model),
            report.violations@.len() <= MAX_VIOLATIONS,
            idx <= n,
            dup@.len() == n,
            report.violations@.len() <= MAX_VIOLATIONS,
            report.is_clean() ==> clean1,
            report.is_clean() ==> forall|j: int| 0 <= j < idx ==> !#[trigger] dup@[j],
            ok ==> report.is_clean(),
            ok ==> forall|j: int| 0 <= j < n ==> !#[trigger] dup@[j],
        decreases n - idx,
    {
        if dup[idx] {
            let id = (idx + 1) as u64;
            let mut at: Vec<Handle> = Vec::new();
            let mut t: usize = 0;
            while t < sightings.len()
                invariant
                    cdepth != mdepth ==> depth_reported(report, cdepth as int, mdepth as int),
                    roots_checked(report, g0.gc_roots().stack(), model.stack(), depth as int),
                    fields_checked(report, *model),
                    report.violations@.len() <= MAX_VIOLATIONS,
                    t <= sightings@.len(),
                decreases sightings@.len() - t,
            {
                if sightings[t].0 == id {
                    insert_distinct(&mut at, sightings[t].1);
                }
                t = t + 1;
            }
            report.record(Violation::DuplicatedIdentity { id, at });
        }
        idx = idx + 1;
    }

    // Working out a root path costs a walk of the model, so only the
    // violations that will actually be shown get one.
    let ghost clean2 = report.is_clean();
    let live = model.reachable_ids();
    let mut paths_computed: usize = 0;
    let mut t: usize = 0;
    while t < live.len()
        invariant
            cdepth != mdepth ==> depth_reported(report, cdepth as int, mdepth as int),
            roots_checked(report, g0.gc_roots().stack(), model.stack(), depth as int),
            fields_checked(report, *model),
            report.violations@.len() <= MAX_VIOLATIONS,
            model.wf(),
            n == model.table_len(),
            first@.len() == n,
            t <= live@.len(),
            report.violations@.len() <= MAX_VIOLATIONS,
            forall|j: int| 0 <= j < live@.len() ==> model.known_id(#[trigger] live@[j]),
            forall|j: int|
                0 <= j < t ==> report.is_clean() ==> first@[(#[trigger] live@[j]) - 1] != NULL_ADDR,
            report.is_clean() ==> clean2,
            ok ==> report.is_clean(),
            ok ==> forall|id: u64| #[trigger] model.is_reachable(id) ==> model.known_id(id) && first@[id - 1] != NULL_ADDR,
            forall|id: u64| live@.contains(id) <==> #[trigger] model.is_reachable(id),
        decreases live@.len() - t,
    {
        let id = live[t];
        proof {
            assert(live@.contains(id));
            assert(model.is_reachable(id));
        }
        let idx = id_index(model, id);
        if first[idx] == NULL_ADDR {
            if report.full() {
                report.omitted = if report.omitted < usize::MAX {
                    report.omitted + 1
                } else {
                    report.omitted
                };
            } else {
                let path = if paths_computed < MAX_PATHS {
                    paths_computed = paths_computed + 1;
                    match path_to(model, id) {
                        Some(p) => p,
                        None => String::from_str("no path found"),
                    }
                } else {
                    String::from_str("path not computed")
                };
                report.record(Violation::Unreachable { id, path });
            }
        }
        t = t + 1;
    }

    proof {
        if report.is_clean() {
            assert forall|id: u64| #[trigger] model.is_reachable(id) implies exists|h: Handle|
                stamped(heap0, h, id) by {
                assert(live@.contains(id));
                let t = choose|t: int| 0 <= t < live@.len() && live@[t] == id;
                assert(first@[live@[t] - 1] != NULL_ADDR);
                assert(stamped(heap0, Handle(first@[id - 1]), id));
            }
            assert forall|s: int| 0 <= s < model.stack().len() implies match #[trigger] model.stack()[s] {
                None => g0.gc_roots().stack()[s].0 == NULL_ADDR,
                Some(id) => stamped(heap0, g0.gc_roots().stack()[s], id),
            } by {
                if model.stack()[s] is Some {
                    let j = spos[s];
                    assert(queue@[j] == q0[j]);
                }
            }
            assert forall|g: int| 0 <= g < model.bindings().len() implies (lookup(
                g0.gc_roots().globals(),
                #[trigger] model.bindings()[g].0,
            ) matches Some(h) && stamped(heap0, h, model.bindings()[g].1)) by {
                let j = gpos[g];
                assert(queue@[j] == q0[j]);
            }
        }
    }
    let mut count: usize = 0;
    let mut j: usize = 0;
    while j < n
        invariant
            cdepth != mdepth ==> depth_reported(report, cdepth as int, mdepth as int),
            roots_checked(report, g0.gc_roots().stack(), model.stack(), depth as int),
            fields_checked(report, *model),
            report.violations@.len() <= MAX_VIOLATIONS,
            j <= n,
            count <= j,
            first@.len() == n,
        decreases n - j,
    {
        if first[j] != NULL_ADDR {
            count = count + 1;
        }
        j = j + 1;
    }
    report.visited = count;
    report
}

/// `i` is where `h` belongs in `s`: every entry before it is below `h`,
/// and the entry at it, if any, is not.
pub open spec fn insertion_point(s: Seq<Handle>, h: Handle, i: int) -> bool {
    &&& 0 <= i <= s.len()
    &&& forall|j: int| 0 <= j < i ==> #[trigger] s[j].0 < h.0
    &&& i < s.len() ==> s[i].0 >= h.0
}

/// Insert `h` into the ascending list `at` unless it is already there.
///
/// It goes in before the first entry not below it, unless that entry is
/// `h` itself.
fn insert_distinct(at: &mut Vec<Handle>, h: Handle)
    ensures
        exists|i: int|
            #[trigger] insertion_point(old(at)@, h, i) && if i < old(at)@.len() && old(at)@[i] == h {
                final(at)@ == old(at)@
            } else {
                final(at)@ == old(at)@.insert(i, h)
            },
{
    let mut i: usize = 0;
    while i < at.len()
        invariant
            i <= at@.len(),
            at@ == old(at)@,
            forall|j: int| 0 <= j < i ==> #[trigger] at@[j].0 < h.0,
        ensures
            insertion_point(old(at)@, h, i as int),
            i < old(at)@.len() ==> old(at)@[i as int].0 > h.0,
            at@ == old(at)@,
        decreases at@.len() - i,
    {
        if at[i].0 == h.0 {
            assert(insertion_point(old(at)@, h, i as int));
            return;
        }
        if at[i].0 > h.0 {
            break;
        }
        i = i + 1;
    }
    let ghost k = i as int;
    at.insert(i, h);
    assert(insertion_point(old(at)@, h, k));
}

/// Compare the collector's own accounting against the model.
///
/// `None` exactly when the bytes the collector reports in use equal the
/// bytes the model can still reach.
pub fn check_accounting<C: Collector>(gc: &C, model: &Model) -> (r: Option<Violation>)
    requires
        model.wf(),
    ensures
        r is None <==> gc.gc_used() == reach_bytes(model, model.table_len()),
        r matches Some(v) ==> v == (Violation::Accounting {
            used: gc.gc_used() as u32,
            reachable: reach_bytes(model, model.table_len()) as u64,
            unreclaimed: (gc.gc_used() - reach_bytes(model, model.table_len())) as i64,
        }),
{
    let used = gc.used_bytes();
    let reachable = model.reachable_bytes();
    if used as u64 == reachable {
        return None;
    }
    Some(Violation::Accounting { used, reachable, unreclaimed: (used as i128 - reachable as i128) as i64 })
}

} // verus!
