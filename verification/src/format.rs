//! How values are shown.
//!
//! A value is shown in one of three ways: as plain text, in which text stands
//! without quotes; for display, in which it stands in quotes; and in colour, in
//! which it stands in quotes and ANSI escape codes mark what is what.

use vstd::arithmetic::power2::{lemma2_to64, lemma_pow2_strictly_increases, lemma_pow2_unfold, pow2};
use vstd::prelude::*;

use crate::digest::{hex_digit, hex_text, hex_value, Digest};
use crate::module_paths::texts;
use crate::text::{chars_of, decimal_text, owned, push_decimal, push_text, text_between};
use crate::text_sort::{sort_texts, sorted_texts, sorting_forgets_order};
use crate::value::{EnumValue, Number, Value};

verus! {

broadcast use vstd::string::group_string_axioms;

/// The escape code that ends a colour.
pub const RESET: &'static str = "\x1b[0m";

/// The escape code of dim text.
pub const DIM: &'static str = "\x1b[2m";

/// The escape code of green.
pub const GREEN: &'static str = "\x1b[32m";

/// The escape code of yellow.
pub const YELLOW: &'static str = "\x1b[33m";

/// The escape code of blue.
pub const BLUE: &'static str = "\x1b[34m";

/// The escape code of magenta.
pub const MAGENTA: &'static str = "\x1b[35m";

/// The escape code of cyan.
pub const CYAN: &'static str = "\x1b[36m";

/// A way to show values.
#[derive(Debug, Clone, Copy, PartialEq, Eq, Structural)]
pub enum FormatMode {
    /// Text without quotes.
    Plain,
    /// Text in quotes.
    Display,
    /// Text in quotes, with colours.
    Colored,
}

/// Text in a colour, where there are colours.
pub open spec fn painted(mode: FormatMode, code: Seq<char>, text: Seq<char>) -> Seq<char> {
    if mode == FormatMode::Colored {
        code + text + RESET@
    } else {
        text
    }
}

/// Text in a colour, where there are colours.
fn paint(mode: FormatMode, code: &str, text: &str) -> (r: String)
    ensures
        r@ == painted(mode, code@, text@),
{
    if mode == FormatMode::Colored {
        let mut out = owned(code);
        push_text(&mut out, text);
        push_text(&mut out, RESET);
        out
    } else {
        owned(text)
    }
}

// ── numbers ─────────────────────────────────────────────────────────────────

/// The magnitude that the bits of a double-precision number stand for, where it
/// is whole and no bit of the significand stands above the units of the last
/// place: a sign, eleven bits of biased exponent and 52 bits of fraction.
pub open spec fn whole_magnitude(bits: u64) -> Option<nat> {
    let exponent = (bits / 0x10_0000_0000_0000) % 0x800;
    let significand = 0x10_0000_0000_0000 + bits % 0x10_0000_0000_0000;
    if bits % 0x8000_0000_0000_0000 == 0 {
        Some(0)
    } else if 1023 <= exponent <= 1075 {
        let unit = pow2((1075 - exponent) as nat);
        if significand % (unit as int) == 0 {
            Some((significand / (unit as int)) as nat)
        } else {
            None
        }
    } else {
        None
    }
}

/// How a number is shown: a whole number of less than sixteen digits without a
/// point, any other as the shortest decimal text that stands for it.
pub open spec fn number_text(n: Number) -> Seq<char> {
    match whole_magnitude(n.bits) {
        Some(k) => if k < 1_000_000_000_000_000 {
            if n.bits >= 0x8000_0000_0000_0000 {
                seq!['-'] + decimal_text(k)
            } else {
                decimal_text(k)
            }
        } else {
            n.text@
        },
        None => n.text@,
    }
}

/// A power of two.
fn power_of_two(n: u64) -> (r: u64)
    requires
        n <= 52,
    ensures
        r == pow2(n as nat),
        r > 0,
{
    let mut r: u64 = 1;
    let mut i: u64 = 0;
    proof {
        lemma2_to64();
    }
    while i < n
        invariant
            i <= n <= 52,
            r == pow2(i as nat),
            r > 0,
        decreases n - i,
    {
        proof {
            lemma2_to64();
            lemma_pow2_unfold((i + 1) as nat);
            lemma_pow2_strictly_increases((i + 1) as nat, 64);
        }
        r = 2 * r;
        i = i + 1;
    }
    r
}

/// The magnitude that bits stand for, where it is whole.
fn magnitude(bits: u64) -> (r: Option<u64>)
    ensures
        match whole_magnitude(bits) {
            Some(k) => r matches Some(m) && m == k,
            None => r is None,
        },
{
    let exponent: u64 = (bits / 0x10_0000_0000_0000) % 0x800;
    let significand: u64 = 0x10_0000_0000_0000 + bits % 0x10_0000_0000_0000;
    if bits % 0x8000_0000_0000_0000 == 0 {
        Some(0)
    } else if 1023 <= exponent && exponent <= 1075 {
        let unit = power_of_two(1075 - exponent);
        if significand % unit == 0 {
            Some(significand / unit)
        } else {
            None
        }
    } else {
        None
    }
}

/// How a number is shown.
fn format_number(n: &Number) -> (r: String)
    ensures
        r@ == number_text(*n),
{
    match magnitude(n.bits) {
        Some(k) => {
            if k < 1_000_000_000_000_000 {
                let mut out = owned("");
                proof {
                    reveal_strlit("");
                }
                if n.bits >= 0x8000_0000_0000_0000 {
                    out.push('-');
                }
                push_decimal(&mut out, k);
                assert(out@ =~= number_text(*n));
                out
            } else {
                owned(n.text.as_str())
            }
        },
        None => owned(n.text.as_str()),
    }
}

// ── text ────────────────────────────────────────────────────────────────────

/// Whether a character is a control character.
pub open spec fn is_control(c: char) -> bool {
    c as int <= 0x1f || 0x7f <= c as int <= 0x9f
}

/// How a character stands between quotes.
pub open spec fn escaped_char(c: char) -> Seq<char> {
    if c == '\n' {
        seq!['\\', 'n']
    } else if c == '\r' {
        seq!['\\', 'r']
    } else if c == '\t' {
        seq!['\\', 't']
    } else if c == '\\' {
        seq!['\\', '\\']
    } else if c == '"' {
        seq!['\\', '"']
    } else if is_control(c) {
        seq!['\\', 'x', hex_digit(c as int / 16), hex_digit(c as int % 16)]
    } else {
        seq![c]
    }
}

/// How text stands between quotes.
pub open spec fn escaped(s: Seq<char>) -> Seq<char>
    decreases s.len(),
{
    if s.len() == 0 {
        seq![]
    } else {
        escaped(s.drop_last()) + escaped_char(s.last())
    }
}

/// A hexadecimal digit.
fn hex_char(n: u32) -> (r: char)
    requires
        n < 16,
    ensures
        r == hex_digit(n as int),
{
    match n {
        0 => '0',
        1 => '1',
        2 => '2',
        3 => '3',
        4 => '4',
        5 => '5',
        6 => '6',
        7 => '7',
        8 => '8',
        9 => '9',
        10 => 'a',
        11 => 'b',
        12 => 'c',
        13 => 'd',
        14 => 'e',
        _ => 'f',
    }
}

/// Append a character as it stands between quotes.
fn push_escaped(out: &mut String, c: char)
    ensures
        final(out)@ == old(out)@ + escaped_char(c),
{
    if c == '\n' {
        out.push('\\');
        out.push('n');
    } else if c == '\r' {
        out.push('\\');
        out.push('r');
    } else if c == '\t' {
        out.push('\\');
        out.push('t');
    } else if c == '\\' {
        out.push('\\');
        out.push('\\');
    } else if c == '"' {
        out.push('\\');
        out.push('"');
    } else {
        let code: u32 = c as u32;
        if code <= 0x1f || (0x7f <= code && code <= 0x9f) {
            out.push('\\');
            out.push('x');
            out.push(hex_char(code / 16));
            out.push(hex_char(code % 16));
        } else {
            out.push(c);
        }
    }
    assert(out@ =~= old(out)@ + escaped_char(c));
}

/// How text stands between quotes.
pub fn escape_string(s: &str) -> (r: String)
    ensures
        r@ == escaped(s@),
{
    let chars = chars_of(s);
    let ghost all = chars@;
    let mut out = owned("");
    proof {
        reveal_strlit("");
    }
    let mut i: usize = 0;
    assert(all.take(0) =~= seq![]);
    assert(out@ =~= escaped(all.take(0)));
    while i < chars.len()
        invariant
            i <= chars@.len(),
            all == chars@,
            out@ == escaped(all.take(i as int)),
        decreases chars@.len() - i,
    {
        assert(all.take(i + 1).drop_last() =~= all.take(i as int));
        let c = chars[i];
        push_escaped(&mut out, c);
        i = i + 1;
    }
    assert(all.take(all.len() as int) =~= all);
    out
}

// ── values ──────────────────────────────────────────────────────────────────

/// Pieces of text with a comma and a space between them.
pub open spec fn comma_joined(s: Seq<Seq<char>>) -> Seq<char>
    decreases s.len(),
{
    if s.len() == 0 {
        seq![]
    } else if s.len() == 1 {
        s[0]
    } else {
        comma_joined(s.drop_last()) + ", "@ + s.last()
    }
}

/// The first eight digits of a hash.
pub open spec fn short_hash(h: Digest) -> Seq<char> {
    hex_text(h@).take(8)
}

/// How values are shown.
pub open spec fn value_texts(s: Seq<Value>, mode: FormatMode) -> Seq<Seq<char>>
    decreases s,
{
    Seq::new(
        s.len(),
        |i: int|
            if 0 <= i < s.len() {
                value_text(s[i], mode)
            } else {
                seq![]
            },
    )
}

/// How a name and its value are shown.
pub open spec fn entry_text(e: (String, Value), mode: FormatMode) -> Seq<char>
    decreases e,
{
    painted(mode, CYAN@, e.0@) + ": "@ + value_text(e.1, mode)
}

/// How names and their values are shown.
pub open spec fn entry_texts(s: Seq<(String, Value)>, mode: FormatMode) -> Seq<Seq<char>>
    decreases s,
{
    Seq::new(
        s.len(),
        |i: int|
            if 0 <= i < s.len() {
                entry_text(s[i], mode)
            } else {
                seq![]
            },
    )
}

/// How a variant is shown.
pub open spec fn variant_text(e: EnumValue, mode: FormatMode) -> Seq<char>
    decreases e,
{
    let name = painted(mode, BLUE@, e.enum_name@ + "::"@ + e.variant_name@);
    match e.payload {
        Some(p) => name + "("@ + value_text(*p, mode) + ")"@,
        None => name,
    }
}

/// How a value is shown.
pub open spec fn value_text(v: Value, mode: FormatMode) -> Seq<char>
    decreases v,
{
    match v {
        Value::Unit => painted(mode, DIM@, "()"@),
        Value::Bool(b) => painted(mode, MAGENTA@, if b { "true"@ } else { "false"@ }),
        Value::Number(n) => painted(mode, YELLOW@, number_text(n)),
        Value::String(s) => if mode == FormatMode::Plain {
            s@
        } else {
            painted(mode, GREEN@, "\""@ + escaped(s@) + "\""@)
        },
        Value::Tuple(vs) => "("@ + comma_joined(value_texts(vs@, mode)) + ")"@,
        Value::Record(es) => "{ "@ + comma_joined(sorted_texts(entry_texts(es@, mode))) + " }"@,
        Value::FunctionRef(h) => painted(mode, DIM@, "<fn "@ + short_hash(h) + ">"@),
        Value::SuspendedAbility(a) => painted(
            mode,
            DIM@,
            "<ability "@ + decimal_text(a.ability_id as nat) + ":"@ + decimal_text(
                a.method_id as nat,
            ) + " with "@ + decimal_text(a.args@.len()) + " args>"@,
        ),
        Value::Continuation => painted(mode, DIM@, "<continuation>"@),
        Value::Closure(c) => painted(
            mode,
            DIM@,
            "<closure "@ + short_hash(c.function_hash) + " ["@ + decimal_text(c.environment@.len())
                + " captures]>"@,
        ),
        Value::Handler(h) => painted(
            mode,
            DIM@,
            "<handler #"@ + decimal_text(h.ability_id as nat) + " ["@ + decimal_text(
                h.methods@.len(),
            ) + " methods]>"@,
        ),
        Value::List(vs) => "["@ + comma_joined(value_texts(vs@, mode)) + "]"@,
        Value::MapValue(es) => painted(mode, BLUE@, "Map"@) + " { "@ + comma_joined(
            sorted_texts(entry_texts(es@, mode)),
        ) + " }"@,
        Value::SetValue(vs) => painted(mode, BLUE@, "Set"@) + " { "@ + comma_joined(
            value_texts(vs@, mode),
        ) + " }"@,
        Value::Enum(e) => variant_text(e, mode),
    }
}

/// Join pieces of text with a comma and a space between them.
fn join_with_commas(s: &Vec<String>) -> (r: String)
    ensures
        r@ == comma_joined(texts(s@)),
{
    let ghost all = texts(s@);
    let mut out = owned("");
    proof {
        reveal_strlit("");
    }
    let mut i: usize = 0;
    assert(all.take(0) =~= seq![]);
    assert(out@ =~= comma_joined(all.take(0)));
    while i < s.len()
        invariant
            i <= s@.len(),
            all == texts(s@),
            out@ == comma_joined(all.take(i as int)),
        decreases s@.len() - i,
    {
        assert(all.take(i + 1).drop_last() =~= all.take(i as int));
        assert(all.take(i + 1).last() == s@[i as int]@);
        let ghost was = out@;
        if i > 0 {
            push_text(&mut out, ", ");
        }
        push_text(&mut out, s[i].as_str());
        assert(out@ =~= comma_joined(all.take(i + 1))) by {
            if i == 0 {
                assert(was =~= seq![]);
                assert(all.take(1)[0] == s@[0]@);
            }
        }
        i = i + 1;
    }
    assert(all.take(all.len() as int) =~= all);
    out
}

/// Text between two pieces of text.
fn enclosed(open: &str, inner: &str, close: &str) -> (r: String)
    ensures
        r@ == open@ + inner@ + close@,
{
    let mut out = owned(open);
    push_text(&mut out, inner);
    push_text(&mut out, close);
    out
}

/// The first eight digits of a hash.
fn shorten(h: &Digest) -> (r: String)
    ensures
        r@ == short_hash(*h),
{
    let hex = h.to_hex();
    let chars = chars_of(hex.as_str());
    assert(chars@.subrange(0, 8) =~= chars@.take(8));
    text_between(chars.as_slice(), 0, 8)
}

/// How values are shown.
fn format_values(s: &Vec<Value>, mode: FormatMode) -> (r: Vec<String>)
    ensures
        texts(r@) == value_texts(s@, mode),
    decreases s@,
{
    let mut out: Vec<String> = Vec::new();
    let mut i: usize = 0;
    while i < s.len()
        invariant
            i <= s@.len(),
            out@.len() == i,
            forall|k: int| 0 <= k < i ==> (#[trigger] out@[k])@ == value_text(s@[k], mode),
        decreases s@.len() - i,
    {
        proof {
            assert(decreases_to!(s@ => s@[i as int]));
        }
        out.push(format_value_impl(&s[i], mode));
        i = i + 1;
    }
    assert(texts(out@) =~= value_texts(s@, mode));
    out
}

/// How names and their values are shown, in order.
fn format_entries(s: &Vec<(String, Value)>, mode: FormatMode) -> (r: String)
    ensures
        r@ == comma_joined(sorted_texts(entry_texts(s@, mode))),
    decreases s@,
{
    let mut out: Vec<String> = Vec::new();
    let mut i: usize = 0;
    while i < s.len()
        invariant
            i <= s@.len(),
            out@.len() == i,
            forall|k: int| 0 <= k < i ==> (#[trigger] out@[k])@ == entry_text(s@[k], mode),
        decreases s@.len() - i,
    {
        proof {
            assert(decreases_to!(s@ => s@[i as int]));
        }
        let value = format_value_impl(&s[i].1, mode);
        let mut text = paint(mode, CYAN, s[i].0.as_str());
        push_text(&mut text, ": ");
        push_text(&mut text, value.as_str());
        out.push(text);
        i = i + 1;
    }
    assert(texts(out@) =~= entry_texts(s@, mode));
    let sorted = sort_texts(out);
    join_with_commas(&sorted)
}

/// How a variant is shown.
fn format_variant(e: &EnumValue, mode: FormatMode) -> (r: String)
    ensures
        r@ == variant_text(*e, mode),
    decreases *e,
{
    let name = enclosed(e.enum_name.as_str(), "::", e.variant_name.as_str());
    let mut out = paint(mode, BLUE, name.as_str());
    match &e.payload {
        Some(p) => {
            let inner = format_value_impl(p, mode);
            push_text(&mut out, "(");
            push_text(&mut out, inner.as_str());
            push_text(&mut out, ")");
            out
        },
        None => out,
    }
}

/// How an ability that waits for a handler is shown.
fn suspended_text(ability_id: u64, method_id: u64, args: u64) -> (r: String)
    ensures
        r@ == "<ability "@ + decimal_text(ability_id as nat) + ":"@ + decimal_text(
            method_id as nat,
        ) + " with "@ + decimal_text(args as nat) + " args>"@,
{
    let mut out = owned("<ability ");
    push_decimal(&mut out, ability_id);
    push_text(&mut out, ":");
    push_decimal(&mut out, method_id);
    push_text(&mut out, " with ");
    push_decimal(&mut out, args);
    push_text(&mut out, " args>");
    out
}

/// How a value is shown.
fn format_value_impl(value: &Value, mode: FormatMode) -> (r: String)
    ensures
        r@ == value_text(*value, mode),
    decreases *value,
{
    match value {
        Value::Unit => paint(mode, DIM, "()"),
        Value::Bool(b) => if *b {
            paint(mode, MAGENTA, "true")
        } else {
            paint(mode, MAGENTA, "false")
        },
        Value::Number(n) => {
            let text = format_number(n);
            paint(mode, YELLOW, text.as_str())
        },
        Value::String(s) => if mode == FormatMode::Plain {
            owned(s.as_str())
        } else {
            let inner = escape_string(s.as_str());
            let quoted = enclosed("\"", inner.as_str(), "\"");
            paint(mode, GREEN, quoted.as_str())
        },
        Value::Tuple(vs) => {
            let parts = format_values(vs, mode);
            let inner = join_with_commas(&parts);
            enclosed("(", inner.as_str(), ")")
        },
        Value::Record(es) => {
            let inner = format_entries(es, mode);
            enclosed("{ ", inner.as_str(), " }")
        },
        Value::FunctionRef(h) => {
            let short = shorten(h);
            let text = enclosed("<fn ", short.as_str(), ">");
            paint(mode, DIM, text.as_str())
        },
        Value::SuspendedAbility(a) => {
            let text = suspended_text(a.ability_id, a.method_id, a.args.len() as u64);
            paint(mode, DIM, text.as_str())
        },
        Value::Continuation => paint(mode, DIM, "<continuation>"),
        Value::Closure(c) => {
            let short = shorten(&c.function_hash);
            let mut text = enclosed("<closure ", short.as_str(), " [");
            push_decimal(&mut text, c.environment.len() as u64);
            push_text(&mut text, " captures]>");
            paint(mode, DIM, text.as_str())
        },
        Value::Handler(h) => {
            let mut text = owned("<handler #");
            push_decimal(&mut text, h.ability_id);
            push_text(&mut text, " [");
            push_decimal(&mut text, h.methods.len() as u64);
            push_text(&mut text, " methods]>");
            paint(mode, DIM, text.as_str())
        },
        Value::List(vs) => {
            let parts = format_values(vs, mode);
            let inner = join_with_commas(&parts);
            enclosed("[", inner.as_str(), "]")
        },
        Value::MapValue(es) => {
            let inner = format_entries(es, mode);
            let mut out = paint(mode, BLUE, "Map");
            push_text(&mut out, " { ");
            push_text(&mut out, inner.as_str());
            push_text(&mut out, " }");
            out
        },
        Value::SetValue(vs) => {
            let parts = format_values(vs, mode);
            let inner = join_with_commas(&parts);
            let mut out = paint(mode, BLUE, "Set");
            push_text(&mut out, " { ");
            push_text(&mut out, inner.as_str());
            push_text(&mut out, " }");
            out
        },
        Value::Enum(e) => format_variant(e, mode),
    }
}

/// A value as plain text, in which text stands without quotes.
pub fn format_value(value: &Value) -> (r: String)
    ensures
        r@ == value_text(*value, FormatMode::Plain),
{
    format_value_impl(value, FormatMode::Plain)
}

/// A value for display: text stands in quotes.
pub fn format_value_display(value: &Value) -> (r: String)
    ensures
        r@ == value_text(*value, FormatMode::Display),
{
    format_value_impl(value, FormatMode::Display)
}

/// A value for display in a terminal: text stands in quotes, and escape codes
/// colour what is what.
pub fn format_value_colored(value: &Value) -> (r: String)
    ensures
        r@ == value_text(*value, FormatMode::Colored),
{
    format_value_impl(value, FormatMode::Colored)
}

// ── laws ────────────────────────────────────────────────────────────────────

/// Rearranged entries have rearranged texts.
pub proof fn rearranged_entries_have_rearranged_texts(
    a: Seq<(String, Value)>,
    b: Seq<(String, Value)>,
    mode: FormatMode,
)
    requires
        a.to_multiset() == b.to_multiset(),
    ensures
        entry_texts(a, mode).to_multiset() == entry_texts(b, mode).to_multiset(),
    decreases a.len(),
{
    broadcast use vstd::seq_lib::group_to_multiset_ensures;

    assert(a.len() == a.to_multiset().len());
    assert(b.len() == b.to_multiset().len());
    let ta = entry_texts(a, mode);
    let tb = entry_texts(b, mode);
    if a.len() > 0 {
        let x = a.last();
        assert(a[a.len() - 1] == x);
        assert(a.contains(x));
        assert(a.to_multiset().count(x) > 0);
        assert(b.contains(x));
        let j = b.index_of(x);
        let c = a.drop_last();
        let d = b.remove(j);
        assert(a =~= c.push(x));
        assert(c.to_multiset() =~= a.to_multiset().remove(x));
        assert(d.to_multiset() =~= b.to_multiset().remove(x));
        rearranged_entries_have_rearranged_texts(c, d, mode);
        let tc = entry_texts(c, mode);
        let td = entry_texts(d, mode);
        let y = entry_text(x, mode);
        assert(ta =~= tc.push(y));
        assert(tb[j] == y);
        assert(tb.remove(j) =~= td);
        assert(tb.contains(y));
        assert(tb.to_multiset().count(y) > 0);
        assert(td.to_multiset() =~= tb.to_multiset().remove(y));
        assert(ta.to_multiset() =~= tc.to_multiset().insert(y));
        assert(tb.to_multiset() =~= td.to_multiset().insert(y));
    } else {
        assert(ta =~= tb);
    }
}

/// The order in which a record holds its fields, or a map its entries, is not
/// shown.
pub proof fn entry_order_is_not_shown(
    a: Vec<(String, Value)>,
    b: Vec<(String, Value)>,
    mode: FormatMode,
)
    requires
        a@.to_multiset() == b@.to_multiset(),
    ensures
        value_text(Value::Record(a), mode) == value_text(Value::Record(b), mode),
        value_text(Value::MapValue(a), mode) == value_text(Value::MapValue(b), mode),
{
    rearranged_entries_have_rearranged_texts(a@, b@, mode);
    sorting_forgets_order(entry_texts(a@, mode), entry_texts(b@, mode));
}

/// What a character becomes between quotes.
proof fn lemma_escaped_char(c: char)
    ensures
        forall|k: int|
            0 <= k < escaped_char(c).len() ==> !is_control(#[trigger] escaped_char(c)[k]),
        forall|k: int|
            0 <= k < escaped_char(c).len() && #[trigger] escaped_char(c)[k] == '"' ==> k == 1
                && escaped_char(c)[0] == '\\',
{
    if is_control(c) {
        assert(0 <= c as int / 16 < 16);
        assert(0 <= c as int % 16 < 16);
    }
}

/// Text for display never runs over a line, and neither quotes nor colours end
/// early: between the quotes stands no control character and no quote that is
/// not behind a backslash.
pub proof fn escaped_text_stays_between_its_quotes(s: Seq<char>)
    ensures
        forall|i: int| 0 <= i < escaped(s).len() ==> !is_control(#[trigger] escaped(s)[i]),
        forall|i: int|
            0 <= i < escaped(s).len() && #[trigger] escaped(s)[i] == '"' ==> i > 0
                && escaped(s)[i - 1] == '\\',
    decreases s.len(),
{
    if s.len() > 0 {
        let before = escaped(s.drop_last());
        let c = s.last();
        let tail = escaped_char(c);
        lemma_escaped_char(c);
        escaped_text_stays_between_its_quotes(s.drop_last());
        assert forall|i: int| 0 <= i < escaped(s).len() implies !is_control(
            #[trigger] escaped(s)[i],
        ) by {
            if i < before.len() {
                assert(escaped(s)[i] == before[i]);
            } else {
                assert(escaped(s)[i] == tail[i - before.len()]);
            }
        }
        assert forall|i: int|
            0 <= i < escaped(s).len() && #[trigger] escaped(s)[i] == '"' implies i > 0
            && escaped(s)[i - 1] == '\\' by {
            if i < before.len() {
                assert(escaped(s)[i] == before[i]);
                assert(escaped(s)[i - 1] == before[i - 1]);
            } else {
                assert(escaped(s)[i] == tail[i - before.len()]);
                if i > before.len() {
                    assert(escaped(s)[i - 1] == tail[i - before.len() - 1]);
                }
            }
        }
    }
}

/// What follows a character, with the character put before it.
pub open spec fn put_before(c: char, rest: Option<Seq<char>>) -> Option<Seq<char>> {
    match rest {
        Some(t) => Some(seq![c] + t),
        None => None,
    }
}

/// The text that stands between quotes: none where a quote or a control
/// character stands there bare, or where a backslash begins nothing.
pub open spec fn unescaped(s: Seq<char>) -> Option<Seq<char>>
    decreases s.len(),
{
    if s.len() == 0 {
        Some(seq![])
    } else if s[0] == '"' || is_control(s[0]) {
        None
    } else if s[0] != '\\' {
        put_before(s[0], unescaped(s.skip(1)))
    } else if s.len() == 1 {
        None
    } else if s[1] == 'n' {
        put_before('\n', unescaped(s.skip(2)))
    } else if s[1] == 'r' {
        put_before('\r', unescaped(s.skip(2)))
    } else if s[1] == 't' {
        put_before('\t', unescaped(s.skip(2)))
    } else if s[1] == '\\' || s[1] == '"' {
        put_before(s[1], unescaped(s.skip(2)))
    } else if s[1] == 'x' && s.len() >= 4 {
        match (hex_value(s[2]), hex_value(s[3])) {
            (Some(high), Some(low)) => put_before(
                (16 * high + low) as char,
                unescaped(s.skip(4)),
            ),
            _ => None,
        }
    } else {
        None
    }
}

proof fn lemma_unescaped_first(c: char, rest: Seq<char>)
    ensures
        unescaped(escaped_char(c) + rest) == put_before(c, unescaped(rest)),
{
    let e = escaped_char(c);
    let s = e + rest;
    assert(s.skip(e.len() as int) =~= rest);
    assert(forall|i: int| 0 <= i < e.len() ==> s[i] == e[i]);
    if is_control(c) && c != '\n' && c != '\r' && c != '\t' {
        let high = c as int / 16;
        let low = c as int % 16;
        assert(0 <= high < 16 && 0 <= low < 16 && 16 * high + low == c as int);
        assert(s[2] == hex_digit(high) && s[3] == hex_digit(low));
        assert(hex_value(hex_digit(high)) == Some(high));
        assert(hex_value(hex_digit(low)) == Some(low));
    }
}

proof fn lemma_escaped_joined(a: Seq<char>, b: Seq<char>)
    ensures
        escaped(a + b) == escaped(a) + escaped(b),
    decreases b.len(),
{
    if b.len() == 0 {
        assert(a + b =~= a);
        assert(escaped(a) + escaped(b) =~= escaped(a));
    } else {
        lemma_escaped_joined(a, b.drop_last());
        assert((a + b).drop_last() =~= a + b.drop_last());
        assert(escaped(a) + escaped(b) =~= escaped(a) + escaped(b.drop_last()) + escaped_char(
            b.last(),
        ));
    }
}

/// Text for display can be read back from between its quotes.
pub proof fn escaped_text_reads_back(s: Seq<char>)
    ensures
        unescaped(escaped(s)) == Some(s),
    decreases s.len(),
{
    if s.len() > 0 {
        let c = s[0];
        let rest = s.skip(1);
        let first = seq![c];
        assert(s =~= first + rest);
        lemma_escaped_joined(first, rest);
        assert(escaped(first.drop_last()) =~= seq![]);
        assert(escaped(first) =~= escaped_char(c));
        escaped_text_reads_back(rest);
        lemma_unescaped_first(c, escaped(rest));
        assert(seq![c] + rest =~= s);
    } else {
        assert(s =~= seq![]);
    }
}

/// Different pieces of text look different between quotes.
pub proof fn escaping_is_injective(a: Seq<char>, b: Seq<char>)
    requires
        escaped(a) == escaped(b),
    ensures
        a == b,
{
    escaped_text_reads_back(a);
    escaped_text_reads_back(b);
}

/// Text without control characters, quotes and backslashes stands between quotes
/// as it is.
pub proof fn plain_text_is_not_escaped(s: Seq<char>)
    requires
        forall|i: int|
            0 <= i < s.len() ==> !is_control(#[trigger] s[i]) && s[i] != '"' && s[i] != '\\',
    ensures
        escaped(s) == s,
    decreases s.len(),
{
    if s.len() > 0 {
        plain_text_is_not_escaped(s.drop_last());
        assert(s[s.len() - 1] == s.last());
        assert(escaped(s) =~= s);
    } else {
        assert(escaped(s) =~= s);
    }
}

} // verus!
