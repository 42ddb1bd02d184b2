//! Colours taken away.
//!
//! A value in colour is the value for display with escape codes put in: with
//! every code taken out again, the one is the other.

use vstd::prelude::*;

use crate::digest::{hex_text, Digest};
use crate::format::{
    comma_joined, entry_text, entry_texts, escaped, escaped_text_stays_between_its_quotes,
    number_text, painted, rearranged_entries_have_rearranged_texts, short_hash, value_text,
    value_texts, variant_text, whole_magnitude, FormatMode, BLUE, CYAN, DIM, GREEN, MAGENTA, RESET,
    YELLOW,
};
use crate::text::decimal_text;
use crate::text_sort::{
    in_order, order_is_unique, sorted_texts, sorting_forgets_order, sorting_orders,
};
use crate::value::{EnumValue, Value};

verus! {

broadcast use vstd::string::group_string_axioms;

/// The character that an escape code begins with.
pub const ESCAPE: char = '\x1b';

/// Where a run of digits ends.
pub open spec fn digits_end(s: Seq<char>, i: int) -> int
    decreases s.len() - i,
{
    if 0 <= i < s.len() && '0' <= s[i] <= '9' {
        digits_end(s, i + 1)
    } else {
        i
    }
}

/// The length of the escape code that text begins with, if it begins with one: the
/// escape character, an opening bracket, digits and an `m`.
pub open spec fn code_length(s: Seq<char>) -> int {
    if s.len() >= 2 && s[0] == ESCAPE && s[1] == '[' {
        let end = digits_end(s, 2);
        if 2 <= end < s.len() && s[end] == 'm' {
            end + 1
        } else {
            0
        }
    } else {
        0
    }
}

/// Text without the escape codes in it.
pub open spec fn uncolored(s: Seq<char>) -> Seq<char>
    decreases s.len(),
{
    if s.len() == 0 {
        seq![]
    } else if 0 < code_length(s) <= s.len() {
        uncolored(s.skip(code_length(s)))
    } else {
        seq![s[0]] + uncolored(s.skip(1))
    }
}

/// Whether text holds no escape character.
pub open spec fn unescaping(s: Seq<char>) -> bool {
    forall|i: int| 0 <= i < s.len() ==> #[trigger] s[i] != ESCAPE
}

/// Whether coloured text shows plain text, whatever follows it.
spec fn shows(colored: Seq<char>, plain: Seq<char>) -> bool {
    forall|rest: Seq<char>| #[trigger]
        uncolored(colored + rest) == plain + uncolored(rest)
}

proof fn lemma_shows_itself(s: Seq<char>)
    requires
        unescaping(s),
    ensures
        shows(s, s),
    decreases s.len(),
{
    if s.len() == 0 {
        assert forall|rest: Seq<char>| #[trigger] uncolored(s + rest) == s + uncolored(rest) by {
            assert(s + rest =~= rest);
            assert(s + uncolored(rest) =~= uncolored(rest));
        }
    } else {
        let tail = s.skip(1);
        assert(forall|i: int| 0 <= i < tail.len() ==> #[trigger] tail[i] == s[i + 1]);
        lemma_shows_itself(tail);
        assert forall|rest: Seq<char>| #[trigger] uncolored(s + rest) == s + uncolored(rest) by {
            assert((s + rest)[0] == s[0]);
            assert((s + rest).skip(1) =~= tail + rest);
            assert(uncolored(tail + rest) == tail + uncolored(rest));
            assert(s + uncolored(rest) =~= seq![s[0]] + (tail + uncolored(rest)));
        }
    }
}

proof fn lemma_shows_joined(a: Seq<char>, p: Seq<char>, b: Seq<char>, q: Seq<char>)
    requires
        shows(a, p),
        shows(b, q),
    ensures
        shows(a + b, p + q),
{
    assert forall|rest: Seq<char>| #[trigger] uncolored((a + b) + rest) == (p + q) + uncolored(
        rest,
    ) by {
        assert((a + b) + rest =~= a + (b + rest));
        assert(uncolored(a + (b + rest)) == p + uncolored(b + rest));
        assert(uncolored(b + rest) == q + uncolored(rest));
        assert(p + (q + uncolored(rest)) =~= (p + q) + uncolored(rest));
    }
}

/// Whether text is an escape code of one or two digits.
spec fn is_code(s: Seq<char>) -> bool {
    &&& 4 <= s.len() <= 5
    &&& s[0] == ESCAPE
    &&& s[1] == '['
    &&& '0' <= s[2] <= '9'
    &&& s.len() == 5 ==> '0' <= s[3] <= '9'
    &&& s.last() == 'm'
}

proof fn lemma_codes()
    ensures
        is_code(RESET@),
        is_code(DIM@),
        is_code(GREEN@),
        is_code(YELLOW@),
        is_code(BLUE@),
        is_code(MAGENTA@),
        is_code(CYAN@),
{
    reveal_strlit("\x1b[0m");
    reveal_strlit("\x1b[2m");
    reveal_strlit("\x1b[32m");
    reveal_strlit("\x1b[33m");
    reveal_strlit("\x1b[34m");
    reveal_strlit("\x1b[35m");
    reveal_strlit("\x1b[36m");
}

proof fn lemma_code_shows_nothing(code: Seq<char>)
    requires
        is_code(code),
    ensures
        shows(code, seq![]),
{
    assert forall|rest: Seq<char>| #[trigger] uncolored(code + rest) == Seq::<char>::empty()
        + uncolored(rest) by {
        let s = code + rest;
        assert(forall|i: int| 0 <= i < code.len() ==> s[i] == code[i]);
        reveal_with_fuel(digits_end, 3);
        assert(code_length(s) == code.len());
        assert(s.skip(code.len() as int) =~= rest);
        assert(Seq::<char>::empty() + uncolored(rest) =~= uncolored(rest));
    }
}

proof fn lemma_painted(code: Seq<char>, s: Seq<char>)
    requires
        is_code(code),
        unescaping(s),
    ensures
        shows(painted(FormatMode::Colored, code, s), painted(FormatMode::Display, code, s)),
{
    lemma_codes();
    lemma_code_shows_nothing(code);
    lemma_shows_itself(s);
    lemma_code_shows_nothing(RESET@);
    lemma_shows_joined(code, seq![], s, s);
    lemma_shows_joined(code + s, seq![] + s, RESET@, seq![]);
    assert(seq![] + s + seq![] =~= s);
}

proof fn lemma_decimal(n: nat)
    ensures
        unescaping(decimal_text(n)),
    decreases n,
{
    if n >= 10 {
        lemma_decimal(n / 10);
    }
}

proof fn lemma_joined_lists(a: Seq<Seq<char>>, b: Seq<Seq<char>>)
    requires
        a.len() == b.len(),
        forall|i: int| 0 <= i < a.len() ==> shows(#[trigger] a[i], b[i]),
    ensures
        shows(comma_joined(a), comma_joined(b)),
    decreases a.len(),
{
    if a.len() == 0 {
        lemma_shows_itself(comma_joined(a));
        assert(comma_joined(a) =~= comma_joined(b));
    } else if a.len() > 1 {
        let c = a.drop_last();
        let d = b.drop_last();
        assert(forall|i: int| 0 <= i < c.len() ==> #[trigger] c[i] == a[i] && d[i] == b[i]);
        lemma_joined_lists(c, d);
        reveal_strlit(", ");
        lemma_shows_itself(", "@);
        assert(shows(a[a.len() - 1], b[a.len() - 1]));
        lemma_shows_joined(comma_joined(c), comma_joined(d), ", "@, ", "@);
        lemma_shows_joined(
            comma_joined(c) + ", "@,
            comma_joined(d) + ", "@,
            a.last(),
            b.last(),
        );
    } else {
        assert(shows(a[0], b[0]));
    }
}

proof fn lemma_between(open: Seq<char>, a: Seq<char>, b: Seq<char>, close: Seq<char>)
    requires
        unescaping(open),
        unescaping(close),
        shows(a, b),
    ensures
        shows(open + a + close, open + b + close),
{
    lemma_shows_itself(open);
    lemma_shows_itself(close);
    lemma_shows_joined(open, open, a, b);
    lemma_shows_joined(open + a, open + b, close, close);
}

// ── values ──────────────────────────────────────────────────────────────────

/// Whether colours can be taken away from every one of some values.
pub open spec fn all_recoverable(s: Seq<Value>) -> bool
    decreases s,
{
    forall|i: int| 0 <= i < s.len() ==> recoverable(#[trigger] s[i])
}

/// Whether colours can be taken away from every one of some entries, and some
/// arrangement of them is in order with colours and without.
pub open spec fn entries_recoverable(s: Seq<(String, Value)>) -> bool
    decreases s,
{
    &&& forall|i: int|
        0 <= i < s.len() ==> unescaping((#[trigger] s[i]).0@) && recoverable(s[i].1)
    &&& ordered_alike(s)
}

/// Whether some arrangement of entries is in order with colours and without.
pub open spec fn ordered_alike(s: Seq<(String, Value)>) -> bool {
    exists|t: Seq<(String, Value)>| #[trigger]
        t.to_multiset() == s.to_multiset() && in_order(entry_texts(t, FormatMode::Colored))
            && in_order(entry_texts(t, FormatMode::Display))
}

/// Whether colours can be taken away from a value: no name in it, and no text of a
/// number, holds an escape character, and where it has entries, colours do not
/// change their order.
pub open spec fn recoverable(v: Value) -> bool
    decreases v,
{
    match v {
        Value::Number(n) => unescaping(n.text@),
        Value::Tuple(vs) => all_recoverable(vs@),
        Value::List(vs) => all_recoverable(vs@),
        Value::SetValue(vs) => all_recoverable(vs@),
        Value::Record(es) => entries_recoverable(es@),
        Value::MapValue(es) => entries_recoverable(es@),
        Value::Enum(e) => {
            &&& unescaping(e.enum_name@)
            &&& unescaping(e.variant_name@)
            &&& match e.payload {
                Some(p) => recoverable(*p),
                None => true,
            }
        },
        _ => true,
    }
}

/// At most one entry is in order in any case.
pub proof fn one_entry_is_in_order(s: Seq<(String, Value)>)
    requires
        s.len() <= 1,
    ensures
        ordered_alike(s),
{
    assert(s.to_multiset() == s.to_multiset());
}

/// What is in order already stays as it is.
proof fn lemma_sorted_already(s: Seq<Seq<char>>)
    requires
        in_order(s),
    ensures
        sorted_texts(s) == s,
{
    sorting_orders(s);
    order_is_unique(sorted_texts(s), s);
}

proof fn lemma_hash(h: Digest)
    ensures
        unescaping(short_hash(h)),
{
    let t = hex_text(h@);
    assert forall|i: int| 0 <= i < t.len() implies #[trigger] t[i] != ESCAPE by {
        assert(0 <= h@[i / 2] as int / 16 < 16);
        assert(0 <= h@[i / 2] as int % 16 < 16);
    }
    assert(short_hash(h).len() == 8);
}

proof fn lemma_text(s: Seq<char>)
    ensures
        unescaping("\""@ + escaped(s) + "\""@),
{
    reveal_strlit("\"");
    escaped_text_stays_between_its_quotes(s);
}

proof fn lemma_values_show(s: Seq<Value>)
    requires
        all_recoverable(s),
    ensures
        shows(
            comma_joined(value_texts(s, FormatMode::Colored)),
            comma_joined(value_texts(s, FormatMode::Display)),
        ),
    decreases s,
{
    let a = value_texts(s, FormatMode::Colored);
    let b = value_texts(s, FormatMode::Display);
    assert forall|i: int| 0 <= i < a.len() implies shows(#[trigger] a[i], b[i]) by {
        assert(decreases_to!(s => s[i]));
        assert(recoverable(s[i]));
        lemma_value_shows(s[i]);
    }
    lemma_joined_lists(a, b);
}

proof fn lemma_entry_shows(e: (String, Value))
    requires
        unescaping(e.0@),
        recoverable(e.1),
    ensures
        shows(entry_text(e, FormatMode::Colored), entry_text(e, FormatMode::Display)),
    decreases e,
{
    lemma_codes();
    lemma_painted(CYAN@, e.0@);
    reveal_strlit(": ");
    lemma_shows_itself(": "@);
    lemma_value_shows(e.1);
    let name = painted(FormatMode::Colored, CYAN@, e.0@);
    let bare = painted(FormatMode::Display, CYAN@, e.0@);
    lemma_shows_joined(name, bare, ": "@, ": "@);
    lemma_shows_joined(
        name + ": "@,
        bare + ": "@,
        value_text(e.1, FormatMode::Colored),
        value_text(e.1, FormatMode::Display),
    );
}

proof fn lemma_entries_show(s: Seq<(String, Value)>)
    requires
        entries_recoverable(s),
    ensures
        shows(
            comma_joined(sorted_texts(entry_texts(s, FormatMode::Colored))),
            comma_joined(sorted_texts(entry_texts(s, FormatMode::Display))),
        ),
    decreases s,
{
    broadcast use vstd::seq_lib::group_to_multiset_ensures;

    let t = choose|t: Seq<(String, Value)>| #[trigger]
        t.to_multiset() == s.to_multiset() && in_order(entry_texts(t, FormatMode::Colored))
            && in_order(entry_texts(t, FormatMode::Display));
    let a = entry_texts(t, FormatMode::Colored);
    let b = entry_texts(t, FormatMode::Display);
    rearranged_entries_have_rearranged_texts(s, t, FormatMode::Colored);
    rearranged_entries_have_rearranged_texts(s, t, FormatMode::Display);
    sorting_forgets_order(entry_texts(s, FormatMode::Colored), a);
    sorting_forgets_order(entry_texts(s, FormatMode::Display), b);
    lemma_sorted_already(a);
    lemma_sorted_already(b);
    assert forall|i: int| 0 <= i < a.len() implies shows(#[trigger] a[i], b[i]) by {
        assert(t.contains(t[i]));
        assert(t.to_multiset().count(t[i]) > 0);
        assert(s.contains(t[i]));
        let j = s.index_of(t[i]);
        assert(decreases_to!(s => s[j]));
        assert(unescaping(s[j].0@) && recoverable(s[j].1));
        lemma_entry_shows(s[j]);
    }
    lemma_joined_lists(a, b);
}

proof fn lemma_variant_shows(e: EnumValue)
    requires
        recoverable(Value::Enum(e)),
    ensures
        shows(variant_text(e, FormatMode::Colored), variant_text(e, FormatMode::Display)),
    decreases e,
{
    reveal_strlit("::");
    reveal_strlit("(");
    reveal_strlit(")");
    lemma_codes();
    let full = e.enum_name@ + "::"@ + e.variant_name@;
    assert(unescaping(full));
    lemma_painted(BLUE@, full);
    let name = painted(FormatMode::Colored, BLUE@, full);
    let bare = painted(FormatMode::Display, BLUE@, full);
    if let Some(p) = e.payload {
        lemma_value_shows(*p);
        lemma_shows_itself("("@);
        lemma_shows_itself(")"@);
        let inner = value_text(*p, FormatMode::Colored);
        let plain = value_text(*p, FormatMode::Display);
        lemma_shows_joined(name, bare, "("@, "("@);
        lemma_shows_joined(name + "("@, bare + "("@, inner, plain);
        lemma_shows_joined(name + "("@ + inner, bare + "("@ + plain, ")"@, ")"@);
    }
}

proof fn lemma_named(name: Seq<char>, a: Seq<char>, b: Seq<char>)
    requires
        unescaping(name),
        shows(a, b),
    ensures
        shows(
            painted(FormatMode::Colored, BLUE@, name) + " { "@ + a + " }"@,
            painted(FormatMode::Display, BLUE@, name) + " { "@ + b + " }"@,
        ),
{
    reveal_strlit(" { ");
    reveal_strlit(" }");
    lemma_codes();
    lemma_painted(BLUE@, name);
    lemma_shows_itself(" { "@);
    lemma_shows_itself(" }"@);
    let c = painted(FormatMode::Colored, BLUE@, name);
    let d = painted(FormatMode::Display, BLUE@, name);
    lemma_shows_joined(c, d, " { "@, " { "@);
    lemma_shows_joined(c + " { "@, d + " { "@, a, b);
    lemma_shows_joined(c + " { "@ + a, d + " { "@ + b, " }"@, " }"@);
}

/// A value that is shown in one colour is shown by what stands between the codes.
proof fn lemma_leaf_shows(v: Value)
    requires
        recoverable(v),
        v is Unit || v is Bool || v is Number || v is String || v is FunctionRef
            || v is SuspendedAbility || v is Continuation || v is Closure || v is Handler,
    ensures
        shows(value_text(v, FormatMode::Colored), value_text(v, FormatMode::Display)),
{
    lemma_codes();
    match v {
        Value::Unit => {
            reveal_strlit("()");
            lemma_painted(DIM@, "()"@);
        },
        Value::Bool(b) => {
            reveal_strlit("true");
            reveal_strlit("false");
            lemma_painted(MAGENTA@, if b { "true"@ } else { "false"@ });
        },
        Value::Number(n) => {
            if let Some(k) = whole_magnitude(n.bits) {
                lemma_decimal(k);
            }
            lemma_painted(YELLOW@, number_text(n));
        },
        Value::String(s) => {
            lemma_text(s@);
            lemma_painted(GREEN@, "\""@ + escaped(s@) + "\""@);
        },
        Value::FunctionRef(h) => {
            reveal_strlit("<fn ");
            reveal_strlit(">");
            lemma_hash(h);
            lemma_painted(DIM@, "<fn "@ + short_hash(h) + ">"@);
        },
        Value::SuspendedAbility(a) => {
            reveal_strlit("<ability ");
            reveal_strlit(":");
            reveal_strlit(" with ");
            reveal_strlit(" args>");
            lemma_decimal(a.ability_id as nat);
            lemma_decimal(a.method_id as nat);
            lemma_decimal(a.args@.len());
            lemma_painted(
                DIM@,
                "<ability "@ + decimal_text(a.ability_id as nat) + ":"@ + decimal_text(
                    a.method_id as nat,
                ) + " with "@ + decimal_text(a.args@.len()) + " args>"@,
            );
        },
        Value::Continuation => {
            reveal_strlit("<continuation>");
            lemma_painted(DIM@, "<continuation>"@);
        },
        Value::Closure(c) => {
            reveal_strlit("<closure ");
            reveal_strlit(" [");
            reveal_strlit(" captures]>");
            lemma_hash(c.function_hash);
            lemma_decimal(c.environment@.len());
            lemma_painted(
                DIM@,
                "<closure "@ + short_hash(c.function_hash) + " ["@ + decimal_text(
                    c.environment@.len(),
                ) + " captures]>"@,
            );
        },
        Value::Handler(h) => {
            reveal_strlit("<handler #");
            reveal_strlit(" [");
            reveal_strlit(" methods]>");
            lemma_decimal(h.ability_id as nat);
            lemma_decimal(h.methods@.len());
            lemma_painted(
                DIM@,
                "<handler #"@ + decimal_text(h.ability_id as nat) + " ["@ + decimal_text(
                    h.methods@.len(),
                ) + " methods]>"@,
            );
        },
        _ => {},
    }
}

proof fn lemma_value_shows(v: Value)
    requires
        recoverable(v),
    ensures
        shows(value_text(v, FormatMode::Colored), value_text(v, FormatMode::Display)),
    decreases v,
{
    let colored = FormatMode::Colored;
    let display = FormatMode::Display;
    match v {
        Value::Tuple(vs) => {
            reveal_strlit("(");
            reveal_strlit(")");
            lemma_values_show(vs@);
            lemma_between(
                "("@,
                comma_joined(value_texts(vs@, colored)),
                comma_joined(value_texts(vs@, display)),
                ")"@,
            );
        },
        Value::List(vs) => {
            reveal_strlit("[");
            reveal_strlit("]");
            lemma_values_show(vs@);
            lemma_between(
                "["@,
                comma_joined(value_texts(vs@, colored)),
                comma_joined(value_texts(vs@, display)),
                "]"@,
            );
        },
        Value::Record(es) => {
            reveal_strlit("{ ");
            reveal_strlit(" }");
            lemma_entries_show(es@);
            lemma_between(
                "{ "@,
                comma_joined(sorted_texts(entry_texts(es@, colored))),
                comma_joined(sorted_texts(entry_texts(es@, display))),
                " }"@,
            );
        },
        Value::MapValue(es) => {
            reveal_strlit("Map");
            lemma_entries_show(es@);
            lemma_named(
                "Map"@,
                comma_joined(sorted_texts(entry_texts(es@, colored))),
                comma_joined(sorted_texts(entry_texts(es@, display))),
            );
        },
        Value::SetValue(vs) => {
            reveal_strlit("Set");
            lemma_values_show(vs@);
            lemma_named(
                "Set"@,
                comma_joined(value_texts(vs@, colored)),
                comma_joined(value_texts(vs@, display)),
            );
        },
        Value::Enum(e) => {
            lemma_variant_shows(e);
        },
        _ => {
            lemma_leaf_shows(v);
        },
    }
}

/// A value in colour, with every escape code taken out, is the value for display.
pub proof fn colors_can_be_taken_away(v: Value)
    requires
        recoverable(v),
    ensures
        uncolored(value_text(v, FormatMode::Colored)) == value_text(v, FormatMode::Display),
{
    lemma_value_shows(v);
    let colored = value_text(v, FormatMode::Colored);
    let plain = value_text(v, FormatMode::Display);
    let nothing: Seq<char> = seq![];
    assert(uncolored(colored + nothing) == plain + uncolored(nothing));
    assert(colored + nothing =~= colored);
    assert(plain + uncolored(nothing) =~= plain);
}

} // verus!
