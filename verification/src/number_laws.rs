//! Which texts read as numbers, stated by the parts of a number.
use vstd::prelude::*;
use crate::grammar::{
    digits_end, exp_part_end, frac_part_end, int_part_end, lemma_digits_end, lemma_number_end,
    number_end, scan_document, scan_elements, scan_member_value, scan_members,
    scan_string_body, scan_value, sign_end, skip_whitespace, ValueScan,
};
use crate::parser::ParseStatus;
use crate::laws::law_number_keeps_text;
use crate::node::JsonValue;

verus! {

/// Decimal digits only.
pub open spec fn all_digits(d: Seq<char>) -> bool {
    forall|i: int| 0 <= i < d.len() ==> '0' <= #[trigger] d[i] <= '9'
}

/// The integer part of a number: a single `0`, or digits that do not start
/// with `0`.
pub open spec fn is_int_part(d: Seq<char>) -> bool {
    &&& d.len() > 0
    &&& all_digits(d)
    &&& (d.len() == 1 || d[0] != '0')
}

/// What stands between the fraction and the digits of an exponent: `e` or
/// `E`, then an optional sign.
pub open spec fn is_exp_mark(m: Seq<char>) -> bool {
    &&& 1 <= m.len() <= 2
    &&& (m[0] == 'e' || m[0] == 'E')
    &&& (m.len() == 2 ==> (m[1] == '+' || m[1] == '-'))
}

/// The text of a number from its parts: an optional minus sign, the
/// integer part, a point and the fraction digits where there are any, and
/// the exponent mark and digits where there are any.
pub open spec fn number_text(
    minus: bool,
    whole: Seq<char>,
    frac: Seq<char>,
    mark: Seq<char>,
    exp: Seq<char>,
) -> Seq<char> {
    (if minus {
        seq!['-']
    } else {
        Seq::empty()
    }) + whole + (if frac.len() > 0 {
        seq!['.'] + frac
    } else {
        Seq::empty()
    }) + (if exp.len() > 0 {
        mark + exp
    } else {
        Seq::empty()
    })
}

/// A run of digits that stands at `a` in `t`, followed by no digit, ends
/// where it stops.
proof fn lemma_digit_run(t: Seq<char>, a: int, d: Seq<char>, i: int)
    requires
        all_digits(d),
        0 <= a,
        a + d.len() <= t.len(),
        forall|j: int| 0 <= j < d.len() ==> t[a + j] == #[trigger] d[j],
        a + d.len() == t.len() || !('0' <= t[a + d.len()] <= '9'),
        0 <= i <= d.len(),
    ensures
        digits_end(t, a + i) == a + d.len(),
    decreases d.len() - i,
{
    if i < d.len() {
        assert(t[a + i] == d[i]);
        lemma_digit_run(t, a, d, i + 1);
    }
}

/// Every text made of the parts of a number, an integer part, an optional
/// fraction of at least one digit and an optional exponent of at least one
/// digit, with or without a minus sign, reads as a number that keeps that
/// text.
pub proof fn law_number_parts_read_as_number(
    minus: bool,
    whole: Seq<char>,
    frac: Seq<char>,
    mark: Seq<char>,
    exp: Seq<char>,
)
    requires
        is_int_part(whole),
        all_digits(frac),
        exp.len() > 0 ==> is_exp_mark(mark),
        all_digits(exp),
    ensures
        scan_document(number_text(minus, whole, frac, mark, exp)) == ValueScan::Parsed(
            JsonValue::Number(number_text(minus, whole, frac, mark, exp)),
            number_text(minus, whole, frac, mark, exp).len() as int,
        ),
{
    let t = number_text(minus, whole, frac, mark, exp);
    let fpart = if frac.len() > 0 {
        seq!['.'] + frac
    } else {
        Seq::<char>::empty()
    };
    let epart = if exp.len() > 0 {
        mark + exp
    } else {
        Seq::<char>::empty()
    };
    let sgn = if minus {
        seq!['-']
    } else {
        Seq::<char>::empty()
    };
    let a = sgn.len() as int;
    let b = a + whole.len();
    let c = b + fpart.len();
    let n = c + epart.len();
    assert(t =~= sgn + whole + fpart + epart);
    assert(t.len() == n);
    assert forall|j: int| 0 <= j < whole.len() implies t[a + j] == #[trigger] whole[j] by {}
    assert forall|j: int| 0 <= j < fpart.len() implies t[b + j] == #[trigger] fpart[j] by {}
    assert forall|j: int| 0 <= j < epart.len() implies t[c + j] == #[trigger] epart[j] by {}
    // the sign
    if minus {
        assert(t[0] == '-');
    } else {
        assert(t[0] == whole[0]);
    }
    assert(sign_end(t, 0) == a);
    // what follows the integer part is a point, an exponent mark, or the end
    assert(b == n || t[b] == '.' || t[b] == 'e' || t[b] == 'E') by {
        if b < n {
            if frac.len() > 0 {
                assert(t[b] == fpart[0]);
            } else {
                assert(t[b] == epart[0]);
                assert(epart[0] == mark[0]);
            }
        }
    }
    // the integer part
    assert(t[a] == whole[0]);
    if whole[0] == '0' {
        assert(int_part_end(t, a) == Some(a + 1));
    } else {
        lemma_digit_run(t, a, whole, 0);
        assert(int_part_end(t, a) == Some(b));
    }
    assert(int_part_end(t, a) == Some(b));
    // what follows the fraction is an exponent mark or the end
    assert(c == n || t[c] == 'e' || t[c] == 'E') by {
        if c < n {
            assert(t[c] == epart[0]);
            assert(epart[0] == mark[0]);
        }
    }
    // the fraction
    if frac.len() > 0 {
        assert(t[b] == '.');
        let fd = frac;
        assert forall|j: int| 0 <= j < fd.len() implies t[b + 1 + j] == #[trigger] fd[j] by {
            assert(t[b + 1 + j] == fpart[1 + j]);
        }
        assert(t[b + 1] == frac[0]);
        lemma_digit_run(t, b + 1, fd, 0);
    }
    assert(frac_part_end(t, b) == Some(c));
    // the exponent
    if exp.len() > 0 {
        let d = c + mark.len();
        assert(t[c] == mark[0]);
        if mark.len() == 2 {
            assert(t[c + 1] == mark[1]);
        } else {
            assert(t[c + 1] == epart[1]);
            assert(epart[1] == exp[0]);
        }
        assert forall|j: int| 0 <= j < exp.len() implies t[d + j] == #[trigger] exp[j] by {
            assert(t[d + j] == epart[mark.len() + j]);
        }
        assert(t[d] == exp[0]);
        lemma_digit_run(t, d, exp, 0);
    }
    assert(exp_part_end(t, c) == Some(n));
    assert(number_end(t, 0) == Some(n));
    law_number_keeps_text(t);
}

proof fn lemma_elements_give_arrays(s: Seq<char>, q: int, acc: Seq<JsonValue>)
    ensures
        scan_elements(s, q, acc) is Parsed ==> scan_elements(s, q, acc)->Parsed_0 is Array,
    decreases s.len() - q,
{
    if let ValueScan::Parsed(v, r) = scan_value(s, q) {
        crate::grammar::lemma_scan_value_fits(s, q);
        let t = skip_whitespace(s, r);
        if 0 <= t < s.len() && s[t] == ',' {
            let u = skip_whitespace(s, t + 1);
            crate::grammar::lemma_skip_whitespace_range(s, t + 1);
            crate::grammar::lemma_skip_whitespace_range(s, r);
            if u > q && u <= s.len() {
                lemma_elements_give_arrays(s, u, acc.push(v));
            } else if u > q {
                assert(scan_value(s, u) is Failed);
            }
        }
    }
}

proof fn lemma_members_give_objects(s: Seq<char>, q: int, acc: Map<Seq<char>, JsonValue>)
    ensures
        scan_members(s, q, acc) is Parsed ==> scan_members(s, q, acc)->Parsed_0 is Object,
    decreases s.len() - q, 1int,
{
    let k = skip_whitespace(s, q);
    if 0 <= k < s.len() && s[k] == '"' {
        let key = scan_string_body(s, k + 1, Seq::empty());
        if key.status == ParseStatus::Success {
            let c = skip_whitespace(s, key.end);
            if 0 <= c < s.len() && s[c] == ':' {
                crate::grammar::lemma_skip_whitespace_range(s, q);
                crate::grammar::lemma_scan_string_body_end(s, k + 1, Seq::empty());
                crate::grammar::lemma_skip_whitespace_range(s, key.end);
                crate::grammar::lemma_skip_whitespace_range(s, c + 1);
                lemma_member_value_gives_objects(s, skip_whitespace(s, c + 1), key.chars, acc);
            }
        }
    }
}

proof fn lemma_member_value_gives_objects(
    s: Seq<char>,
    v0: int,
    key: Seq<char>,
    acc: Map<Seq<char>, JsonValue>,
)
    requires
        v0 <= s.len(),
    ensures
        scan_member_value(s, v0, key, acc) is Parsed ==> scan_member_value(
            s,
            v0,
            key,
            acc,
        )->Parsed_0 is Object,
    decreases s.len() - v0, 0int,
{
    if let ValueScan::Parsed(v, r) = scan_value(s, v0) {
        crate::grammar::lemma_scan_value_fits(s, v0);
        let t = skip_whitespace(s, r);
        if 0 <= t < s.len() && s[t] == ',' {
            let u = skip_whitespace(s, t + 1);
            crate::grammar::lemma_skip_whitespace_range(s, t + 1);
            if u > v0 {
                lemma_members_give_objects(s, u, acc.insert(key, v));
            }
        }
    }
}

/// The characters that a run of digits steps over are digits.
proof fn lemma_run_is_digits(s: Seq<char>, a: int)
    requires
        0 <= a <= s.len(),
    ensures
        all_digits(s.subrange(a, digits_end(s, a))),
    decreases s.len() - a,
{
    lemma_digits_end(s, a);
    if a < s.len() && '0' <= s[a] <= '9' {
        lemma_run_is_digits(s, a + 1);
        lemma_digits_end(s, a + 1);
        let d = digits_end(s, a);
        assert forall|i: int| 0 <= i < d - a implies '0' <= #[trigger] s.subrange(a, d)[i] <= '9' by {
            if i > 0 {
                assert(s.subrange(a, d)[i] == s.subrange(a + 1, d)[i - 1]);
            }
        }
    }
}

/// The number that stands at `p` is made of the parts of a number: what
/// reads as a number is a minus sign or none, an integer part, an optional
/// fraction and an optional exponent, and nothing else.
#[verifier::spinoff_prover]
#[verifier::rlimit(80)]
pub proof fn lemma_number_parts(s: Seq<char>, p: int, q: int)
    requires
        0 <= p,
        number_end(s, p) == Some(q),
    ensures
        exists|minus: bool, whole: Seq<char>, frac: Seq<char>, mark: Seq<char>, exp: Seq<char>|
            is_int_part(whole) && all_digits(frac) && (exp.len() > 0 ==> is_exp_mark(mark))
                && all_digits(exp) && s.subrange(p, q) == #[trigger] number_text(
                minus,
                whole,
                frac,
                mark,
                exp,
            ),
{
    lemma_number_end(s, p);
    let a = sign_end(s, p);
    let minus = a == p + 1;
    let b = int_part_end(s, a)->0;
    let c = frac_part_end(s, b)->0;
    lemma_digits_end(s, a);
    lemma_digits_end(s, b + 1);
    let whole = s.subrange(a, b);
    if s[a] != '0' {
        lemma_run_is_digits(s, a);
    }
    assert(is_int_part(whole));
    let frac = if b < s.len() && s[b] == '.' {
        s.subrange(b + 1, c)
    } else {
        Seq::<char>::empty()
    };
    if b < s.len() && s[b] == '.' {
        lemma_run_is_digits(s, b + 1);
        lemma_digits_end(s, b + 2);
        assert(c > b + 1);
        assert(s.subrange(b, c) =~= seq!['.'] + frac);
    } else {
        assert(c == b);
        assert(s.subrange(b, c) =~= Seq::<char>::empty());
    }
    assert(all_digits(frac));
    let d = if c + 1 < s.len() && (s[c + 1] == '+' || s[c + 1] == '-') {
        c + 2
    } else {
        c + 1
    };
    let has_exp = c < s.len() && (s[c] == 'e' || s[c] == 'E');
    let mark = if has_exp {
        s.subrange(c, d)
    } else {
        Seq::<char>::empty()
    };
    let exp = if has_exp {
        s.subrange(d, q)
    } else {
        Seq::<char>::empty()
    };
    if has_exp {
        lemma_run_is_digits(s, d);
        lemma_digits_end(s, d);
        lemma_digits_end(s, d + 1);
        assert(q == digits_end(s, d));
        assert(exp.len() > 0);
        assert(is_exp_mark(mark));
    }
    assert(all_digits(exp));
    let sgn = if minus {
        seq!['-']
    } else {
        Seq::<char>::empty()
    };
    let fpart = if frac.len() > 0 {
        seq!['.'] + frac
    } else {
        Seq::<char>::empty()
    };
    let epart = if exp.len() > 0 {
        mark + exp
    } else {
        Seq::<char>::empty()
    };
    assert(s.subrange(p, a) =~= sgn);
    assert(s.subrange(b, c) == fpart);
    assert(s.subrange(c, q) =~= epart);
    assert(s.subrange(p, q) =~= s.subrange(p, a) + s.subrange(a, b) + s.subrange(b, c)
        + s.subrange(c, q));
    assert(s.subrange(p, q) =~= number_text(minus, whole, frac, mark, exp));
}

/// A text that reads as a number is made of the parts of a number: a minus
/// sign or none, an integer part (`0`, or digits that do not start with
/// `0`), an optional point and digits, an optional `e` or `E`, sign and
/// digits.  Nothing else reads as a number: no leading zeros, no lone
/// point, no plus sign in front.
pub proof fn law_numbers_are_made_of_parts(s: Seq<char>)
    requires
        scan_document(s) matches ValueScan::Parsed(JsonValue::Number(_), _),
    ensures
        exists|minus: bool, whole: Seq<char>, frac: Seq<char>, mark: Seq<char>, exp: Seq<char>|
            is_int_part(whole) && all_digits(frac) && (exp.len() > 0 ==> is_exp_mark(mark))
                && all_digits(exp) && scan_document(s)->Parsed_0 == JsonValue::Number(
                #[trigger] number_text(minus, whole, frac, mark, exp),
            ),
{
    let p0 = skip_whitespace(s, 0);
    crate::grammar::lemma_skip_whitespace_range(s, 0);
    let c = s[p0];
    if c == '[' {
        lemma_elements_give_arrays(s, skip_whitespace(s, p0 + 1), Seq::empty());
    } else if c == '{' {
        lemma_members_give_objects(s, skip_whitespace(s, p0 + 1), Map::empty());
    }
    let q = number_end(s, p0)->0;
    assert(scan_value(s, p0) == ValueScan::Parsed(JsonValue::Number(s.subrange(p0, q)), q));
    lemma_number_parts(s, p0, q);
}

} // verus!
