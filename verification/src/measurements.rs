//! The measurement map a Voltech data line produces: names bound to typed
//! scalars (integer, float-shaped number kept verbatim, or text), together
//! with its JSON object encoding — the shape the store keeps in the
//! `measurements` column — and an exact parser back.

use vstd::prelude::*;
use crate::text;
use crate::dates::digit_of;

verus! {

use vstd::arithmetic::div_mod::lemma_fundamental_div_mod;

/// A measurement scalar at the specification level.
pub enum MeasVal {
    /// A value that reads as a signed 64-bit integer.
    Int(i64),
    /// A float-shaped token, kept exactly as decoded.
    Num(Seq<char>),
    /// Any other cell text.
    Text(Seq<char>),
}

/// A measurement scalar: an integer, a float-shaped token kept verbatim, or
/// plain text.
#[derive(Clone, Debug)]
pub enum MeasValue {
    Int(i64),
    Num(String),
    Text(String),
}

impl View for MeasValue {
    type V = MeasVal;

    open spec fn view(&self) -> MeasVal {
        match self {
            MeasValue::Int(i) => MeasVal::Int(*i),
            MeasValue::Num(s) => MeasVal::Num(s@),
            MeasValue::Text(s) => MeasVal::Text(s@),
        }
    }
}

impl MeasValue {
    /// A copy with the same view.
    pub fn duplicate(&self) -> (r: MeasValue)
        ensures
            r@ == self@,
    {
        match self {
            MeasValue::Int(i) => MeasValue::Int(*i),
            MeasValue::Num(s) => MeasValue::Num(s.clone()),
            MeasValue::Text(s) => MeasValue::Text(s.clone()),
        }
    }
}

/// The map view of a measurement list: keys paired with scalar views.
pub open spec fn entries_view(m: Seq<(String, MeasValue)>) -> Seq<(Seq<char>, MeasVal)> {
    m.map(|i: int, e: (String, MeasValue)| (e.0@, e.1@))
}

/// A well-formed scalar: a `Num` really is a float-shaped token that does not
/// read as an integer — exactly the values the cell-typing step produces.
pub open spec fn wf_val(v: MeasVal) -> bool {
    match v {
        MeasVal::Int(_) => true,
        MeasVal::Num(s) => text::is_float_str(s) && text::parse_int(s) is None,
        MeasVal::Text(_) => true,
    }
}

/// A well-formed measurement map: well-formed scalars and pairwise distinct
/// keys.
pub open spec fn wf_map(es: Seq<(Seq<char>, MeasVal)>) -> bool {
    &&& forall|i: int| 0 <= i < es.len() ==> wf_val(#[trigger] es[i].1)
    &&& forall|i: int, j: int| 0 <= i < j < es.len() ==> es[i].0 != es[j].0
}

/// How a raw cell is typed: as an integer if it parses as one, else as a
/// number if it is float-shaped, else as text.
pub open spec fn val_of_cell(s: Seq<char>) -> MeasVal {
    if text::parse_int(s) is Some {
        MeasVal::Int(text::parse_int(s)->0)
    } else if text::is_float_str(s) {
        MeasVal::Num(s)
    } else {
        MeasVal::Text(s)
    }
}

/// Types one raw cell, per [`val_of_cell`]; the result is well formed.
pub fn value_of_cell(cell: &Vec<char>) -> (r: MeasValue)
    ensures
        r@ == val_of_cell(cell@),
        wf_val(r@),
{
    match text::parse_int_chars(cell) {
        Some(i) => MeasValue::Int(i),
        None => {
            if text::is_float_chars(cell) {
                MeasValue::Num(text::chars_to_string(cell))
            } else {
                MeasValue::Text(text::chars_to_string(cell))
            }
        },
    }
}

// ===================== JSON encoding =====================

/// Decimal digits of `n`, most significant first.
pub open spec fn dec_seq(n: nat) -> Seq<char>
    decreases n,
{
    if n < 10 {
        seq![digit_of(n as int)]
    } else {
        dec_seq(n / 10) + seq![digit_of(n as int % 10)]
    }
}

/// A signed decimal integer literal.
pub open spec fn int_seq(i: int) -> Seq<char> {
    if i < 0 {
        seq!['-'] + dec_seq((-i) as nat)
    } else {
        dec_seq(i as nat)
    }
}

/// JSON string escaping: backslashes and double quotes get a leading
/// backslash, everything else passes through.
pub open spec fn escape_seq(s: Seq<char>) -> Seq<char>
    decreases s.len(),
{
    if s.len() == 0 {
        Seq::empty()
    } else {
        let head: Seq<char> = if s[0] == '"' || s[0] == '\\' {
            seq!['\\', s[0]]
        } else {
            seq![s[0]]
        };
        head + escape_seq(s.drop_first())
    }
}

/// A JSON string literal: quoted and escaped.
pub open spec fn quote_seq(s: Seq<char>) -> Seq<char> {
    seq!['"'] + escape_seq(s) + seq!['"']
}

/// The JSON text of one scalar.
pub open spec fn val_json(v: MeasVal) -> Seq<char> {
    match v {
        MeasVal::Int(i) => int_seq(i as int),
        MeasVal::Num(s) => s,
        MeasVal::Text(s) => quote_seq(s),
    }
}

/// The JSON text of one `"key":value` binding.
pub open spec fn entry_json(e: (Seq<char>, MeasVal)) -> Seq<char> {
    quote_seq(e.0) + seq![':'] + val_json(e.1)
}

/// The JSON text of a non-empty run of bindings, up to and including the
/// closing brace.
pub open spec fn body_json(es: Seq<(Seq<char>, MeasVal)>) -> Seq<char>
    decreases es.len(),
{
    if es.len() == 0 {
        seq!['}']  // unreachable for the maps the encoder emits
    } else if es.len() == 1 {
        entry_json(es[0]) + seq!['}']
    } else {
        entry_json(es[0]) + seq![','] + body_json(es.drop_first())
    }
}

/// The JSON object text of a measurement map.
pub open spec fn map_json(es: Seq<(Seq<char>, MeasVal)>) -> Seq<char> {
    if es.len() == 0 {
        seq!['{', '}']
    } else {
        seq!['{'] + body_json(es)
    }
}

/// Renders the decimal digits of `n`, per [`dec_seq`].
pub fn dec_chars(n: u64) -> (r: Vec<char>)
    ensures
        r@ == dec_seq(n as nat),
    decreases n,
{
    if n < 10 {
        let mut r: Vec<char> = Vec::new();
        r.push(crate::dates::digit_char_of(n as u32));
        proof {
            assert(r@ =~= dec_seq(n as nat));
        }
        r
    } else {
        let mut r = dec_chars(n / 10);
        r.push(crate::dates::digit_char_of((n % 10) as u32));
        proof {
            assert(r@ =~= dec_seq(n as nat));
        }
        r
    }
}

/// Renders a signed decimal integer, per [`int_seq`].
pub fn int_chars(i: i64) -> (r: Vec<char>)
    ensures
        r@ == int_seq(i as int),
{
    if i >= 0 {
        dec_chars(i as u64)
    } else {
        let mag: u64 = if i == i64::MIN {
            0x8000_0000_0000_0000
        } else {
            (-i) as u64
        };
        proof {
            assert(mag as nat == (-(i as int)) as nat);
        }
        let mut r: Vec<char> = Vec::new();
        r.push('-');
        let mut d = dec_chars(mag);
        r.append(&mut d);
        proof {
            assert(r@ =~= int_seq(i as int));
        }
        r
    }
}

proof fn lemma_escape_concat(a: Seq<char>, b: Seq<char>)
    ensures
        escape_seq(a + b) == escape_seq(a) + escape_seq(b),
    decreases a.len(),
{
    if a.len() == 0 {
        assert(a + b =~= b);
        assert(escape_seq(a) + escape_seq(b) =~= escape_seq(b));
    } else {
        lemma_escape_concat(a.drop_first(), b);
        assert((a + b).drop_first() =~= a.drop_first() + b);
        assert((a + b)[0] == a[0]);
        let head: Seq<char> = if a[0] == '"' || a[0] == '\\' {
            seq!['\\', a[0]]
        } else {
            seq![a[0]]
        };
        assert(escape_seq(a + b) == head + (escape_seq(a.drop_first()) + escape_seq(b)));
        assert(head + (escape_seq(a.drop_first()) + escape_seq(b)) =~= (head + escape_seq(
            a.drop_first(),
        )) + escape_seq(b));
    }
}

/// Appends the escaped form of `s` to `out`.
fn push_escaped(out: &mut Vec<char>, s: &Vec<char>)
    ensures
        final(out)@ == old(out)@ + escape_seq(s@),
{
    let n = s.len();
    let mut i: usize = 0;
    while i < n
        invariant
            0 <= i <= n == s@.len(),
            out@ == old(out)@ + escape_seq(s@.take(i as int)),
        decreases n - i,
    {
        let c = s[i];
        proof {
            assert(s@.take(i + 1 as int) =~= s@.take(i as int) + seq![c]);
            lemma_escape_concat(s@.take(i as int), seq![c]);
            assert(seq![c].drop_first() =~= Seq::<char>::empty());
        }
        if c == '"' || c == '\\' {
            out.push('\\');
            out.push(c);
        } else {
            out.push(c);
        }
        proof {
            assert(escape_seq(Seq::<char>::empty()) =~= Seq::<char>::empty());
            assert(seq![c].len() == 1 && seq![c][0] == c);
            assert(escape_seq(seq![c]) =~= (if c == '"' || c == '\\' {
                seq!['\\', c]
            } else {
                seq![c]
            }));
            assert(out@ =~= old(out)@ + escape_seq(s@.take(i + 1 as int)));
        }
        i = i + 1;
    }
    proof {
        assert(s@.take(n as int) =~= s@);
    }
}

/// Appends the quoted, escaped form of `s` to `out`.
fn push_quoted(out: &mut Vec<char>, s: &Vec<char>)
    ensures
        final(out)@ == old(out)@ + quote_seq(s@),
{
    out.push('"');
    push_escaped(out, s);
    out.push('"');
    proof {
        assert(out@ =~= old(out)@ + quote_seq(s@));
    }
}

/// Appends the JSON text of one scalar to `out`.
fn push_value(out: &mut Vec<char>, v: &MeasValue)
    ensures
        final(out)@ == old(out)@ + val_json(v@),
{
    match v {
        MeasValue::Int(i) => {
            let mut d = int_chars(*i);
            out.append(&mut d);
        },
        MeasValue::Num(s) => {
            let mut d = text::str_to_chars(s.as_str());
            out.append(&mut d);
        },
        MeasValue::Text(s) => {
            let d = text::str_to_chars(s.as_str());
            push_quoted(out, &d);
        },
    }
}

/// Renders a measurement map as a JSON object, per [`map_json`].
pub fn measurements_to_json(m: &Vec<(String, MeasValue)>) -> (r: String)
    ensures
        r@ == map_json(entries_view(m@)),
{
    let n = m.len();
    let mut out: Vec<char> = Vec::new();
    out.push('{');
    if n == 0 {
        out.push('}');
        proof {
            assert(out@ =~= map_json(entries_view(m@)));
        }
        return text::chars_to_string(&out);
    }
    let mut i: usize = 0;
    proof {
        assert(entries_view(m@).skip(0) =~= entries_view(m@));
        assert(out@ =~= seq!['{']);
    }
    while i < n
        invariant
            0 <= i < n == m@.len(),
            entries_view(m@).len() == n,
            seq!['{'] + body_json(entries_view(m@)) == out@ + body_json(
                entries_view(m@).skip(i as int),
            ),
        decreases n - i,
    {
        let (k, v) = (&m[i].0, &m[i].1);
        let kc = text::str_to_chars(k.as_str());
        let ghost rest = entries_view(m@).skip(i as int);
        proof {
            assert(rest[0] == (k@, v@));
            assert(rest.drop_first() =~= entries_view(m@).skip(i + 1 as int));
        }
        push_quoted(&mut out, &kc);
        out.push(':');
        push_value(&mut out, v);
        if i + 1 < n {
            out.push(',');
            proof {
                assert(rest.len() > 1);
                assert(body_json(rest) == entry_json(rest[0]) + seq![','] + body_json(
                    rest.drop_first(),
                ));
                assert(seq!['{'] + body_json(entries_view(m@)) =~= out@ + body_json(
                    entries_view(m@).skip(i + 1 as int),
                ));
            }
            i = i + 1;
        } else {
            out.push('}');
            proof {
                assert(rest.len() == 1);
                assert(body_json(rest) == entry_json(rest[0]) + seq!['}']);
                assert(out@ =~= seq!['{'] + body_json(entries_view(m@)));
                assert(out@ =~= map_json(entries_view(m@)));
            }
            return text::chars_to_string(&out);
        }
    }
    proof {
        assert(false);
    }
    text::chars_to_string(&out)
}

// ===================== JSON decoding =====================

/// Scans a JSON string body (the part after the opening quote): the content
/// up to the closing quote, unescaping one backslash, and the remainder.
pub open spec fn scan_string(s: Seq<char>) -> Option<(Seq<char>, Seq<char>)>
    decreases s.len(),
{
    if s.len() == 0 {
        None
    } else if s[0] == '\\' {
        if s.len() >= 2 {
            match scan_string(s.skip(2)) {
                Some((t, r)) => Some((seq![s[1]] + t, r)),
                None => None,
            }
        } else {
            None
        }
    } else if s[0] == '"' {
        Some((Seq::empty(), s.drop_first()))
    } else {
        match scan_string(s.drop_first()) {
            Some((t, r)) => Some((seq![s[0]] + t, r)),
            None => None,
        }
    }
}

/// What remains after a string scan is strictly shorter.
pub proof fn lemma_scan_string_shrinks(s: Seq<char>)
    ensures
        scan_string(s) is Some ==> (scan_string(s)->0).1.len() < s.len(),
    decreases s.len(),
{
    if s.len() > 0 {
        if s[0] == '\\' {
            if s.len() >= 2 {
                lemma_scan_string_shrinks(s.skip(2));
            }
        } else if s[0] != '"' {
            lemma_scan_string_shrinks(s.drop_first());
        }
    }
}

/// A bare token is a delimiter for value tokens.
pub open spec fn is_delim(c: char) -> bool {
    c == ',' || c == '}'
}

/// Scans an unquoted token: the characters before the first delimiter, and
/// the remainder starting at that delimiter (or the end).
pub open spec fn scan_token(s: Seq<char>) -> (Seq<char>, Seq<char>)
    decreases s.len(),
{
    if s.len() == 0 {
        (Seq::empty(), s)
    } else if is_delim(s[0]) {
        (Seq::empty(), s)
    } else {
        let (t, r) = scan_token(s.drop_first());
        (seq![s[0]] + t, r)
    }
}

/// A token scan splits its input: token plus rest is the input, the token is
/// delimiter-free, and the rest starts with a delimiter if non-empty.
pub proof fn lemma_scan_token_split(s: Seq<char>)
    ensures
        scan_token(s).0 + scan_token(s).1 == s,
        forall|k: int| 0 <= k < scan_token(s).0.len() ==> !is_delim(#[trigger] scan_token(s).0[k]),
        scan_token(s).1.len() > 0 ==> is_delim(scan_token(s).1[0]),
    decreases s.len(),
{
    if s.len() == 0 || is_delim(s[0]) {
        assert(scan_token(s).0 + scan_token(s).1 =~= s);
    } else {
        lemma_scan_token_split(s.drop_first());
        let t2 = scan_token(s.drop_first()).0;
        let r2 = scan_token(s.drop_first()).1;
        assert(scan_token(s).0 == seq![s[0]] + t2);
        assert(scan_token(s).1 == r2);
        assert(t2 + r2 == s.drop_first());
        assert forall|k: int| 0 <= k < scan_token(s).0.len() implies !is_delim(
            #[trigger] scan_token(s).0[k],
        ) by {
            if k > 0 {
                assert(scan_token(s).0[k] == t2[k - 1]);
            }
        }
        assert((seq![s[0]] + t2) + r2 =~= seq![s[0]] + (t2 + r2));
        assert(seq![s[0]] + s.drop_first() =~= s);
        assert(scan_token(s).0 + scan_token(s).1 == (seq![s[0]] + t2) + r2);
    }
}

/// Scanning a delimiter-free token followed by a delimiter (or nothing)
/// returns exactly that split.
pub proof fn lemma_scan_token_of(t: Seq<char>, r: Seq<char>)
    requires
        forall|k: int| 0 <= k < t.len() ==> !is_delim(#[trigger] t[k]),
        r.len() > 0 ==> is_delim(r[0]),
    ensures
        scan_token(t + r) == (t, r),
    decreases t.len(),
{
    let s = t + r;
    if t.len() == 0 {
        assert(s =~= r);
        if r.len() == 0 || is_delim(r[0]) {
            assert(scan_token(s) == (Seq::<char>::empty(), s));
        }
    } else {
        assert(s[0] == t[0]);
        assert(!is_delim(s[0]));
        assert(s.drop_first() =~= t.drop_first() + r);
        assert(forall|k: int|
            0 <= k < t.drop_first().len() ==> !is_delim(#[trigger] t.drop_first()[k]));
        lemma_scan_token_of(t.drop_first(), r);
        assert(seq![s[0]] + t.drop_first() =~= t);
    }
}

/// Reads one JSON value: a quoted string becomes text, an unquoted token
/// becomes an integer if it parses as one, else a float-shaped number;
/// anything else is malformed.
pub open spec fn parse_value(s: Seq<char>) -> Option<(MeasVal, Seq<char>)> {
    if s.len() == 0 {
        None
    } else if s[0] == '"' {
        match scan_string(s.drop_first()) {
            Some((t, r)) => Some((MeasVal::Text(t), r)),
            None => None,
        }
    } else {
        let (tok, r) = scan_token(s);
        if tok.len() == 0 {
            None
        } else if text::parse_int(tok) is Some {
            Some((MeasVal::Int(text::parse_int(tok)->0), r))
        } else if text::is_float_str(tok) {
            Some((MeasVal::Num(tok), r))
        } else {
            None
        }
    }
}

/// What remains after a value parse is strictly shorter.
pub proof fn lemma_parse_value_shrinks(s: Seq<char>)
    ensures
        parse_value(s) is Some ==> (parse_value(s)->0).1.len() < s.len(),
{
    if s.len() > 0 {
        if s[0] == '"' {
            lemma_scan_string_shrinks(s.drop_first());
        } else {
            lemma_scan_token_split(s);
        }
    }
}

/// Reads a run of `"key":value` bindings, comma separated and closed by a
/// brace; returns the bindings and what follows the closing brace.
pub open spec fn parse_entries(s: Seq<char>) -> Option<
    (Seq<(Seq<char>, MeasVal)>, Seq<char>),
>
    decreases s.len(),
    via parse_entries_decreases
{
    if s.len() == 0 || s[0] != '"' {
        None
    } else {
        match scan_string(s.drop_first()) {
            None => None,
            Some((key, r1)) => {
                if r1.len() == 0 || r1[0] != ':' {
                    None
                } else {
                    match parse_value(r1.drop_first()) {
                        None => None,
                        Some((v, r3)) => {
                            if r3.len() == 0 {
                                None
                            } else if r3[0] == ',' {
                                match parse_entries(r3.drop_first()) {
                                    Some((es, r4)) => Some((seq![(key, v)] + es, r4)),
                                    None => None,
                                }
                            } else if r3[0] == '}' {
                                Some((seq![(key, v)], r3.drop_first()))
                            } else {
                                None
                            }
                        },
                    }
                }
            },
        }
    }
}

#[via_fn]
proof fn parse_entries_decreases(s: Seq<char>) {
    if s.len() > 0 && s[0] == '"' {
        lemma_scan_string_shrinks(s.drop_first());
        if scan_string(s.drop_first()) is Some {
            let (key, r1) = scan_string(s.drop_first())->0;
            if r1.len() > 0 && r1[0] == ':' {
                lemma_parse_value_shrinks(r1.drop_first());
            }
        }
    }
}

// ===================== round trip =====================

proof fn lemma_dec_seq_digits(n: nat)
    ensures
        text::all_digits(dec_seq(n)),
        text::digits_val(dec_seq(n)) == n,
        dec_seq(n).len() >= 1,
    decreases n,
{
    if n < 10 {
        let p = dec_seq(n);
        assert(p =~= Seq::<char>::empty().push(digit_of(n as int)));
        assert(text::is_digit(digit_of(n as int)));
        text::lemma_digits_val_push(Seq::<char>::empty(), digit_of(n as int));
        assert(text::digits_val(Seq::<char>::empty()) == 0);
    } else {
        lemma_dec_seq_digits(n / 10);
        lemma_fundamental_div_mod(n as int, 10);
        let q = dec_seq(n / 10);
        let c = digit_of(n as int % 10);
        assert(text::is_digit(c));
        assert(dec_seq(n) =~= q.push(c));
        text::lemma_digits_val_push(q, c);
        assert(c as int - '0' as int == n as int % 10);
        assert forall|k: int| 0 <= k < dec_seq(n).len() implies text::is_digit(
            #[trigger] dec_seq(n)[k],
        ) by {
            if k < q.len() {
                assert(dec_seq(n)[k] == q[k]);
            }
        }
    }
}

proof fn lemma_parse_int_int_seq(i: i64)
    ensures
        text::parse_int(int_seq(i as int)) == Some(i),
        int_seq(i as int).len() >= 1,
        forall|k: int| 0 <= k < int_seq(i as int).len() ==> text::is_digit(
            #[trigger] int_seq(i as int)[k],
        ) || int_seq(i as int)[k] == '-',
{
    let s = int_seq(i as int);
    if i >= 0 {
        lemma_dec_seq_digits(i as nat);
        assert(s == dec_seq(i as nat));
        assert(text::is_digit(s[0]));
        assert(s[0] != '-' && s[0] != '+');
        assert(text::digits_val(s) == i as nat);
        assert(i as nat <= 0x7fff_ffff_ffff_ffff);
    } else {
        let m = (-(i as int)) as nat;
        lemma_dec_seq_digits(m);
        assert(s =~= seq!['-'] + dec_seq(m));
        assert(s[0] == '-');
        let ds = s.drop_first();
        assert(ds =~= dec_seq(m));
        assert(text::digits_val(ds) == m);
        assert(m <= 0x8000_0000_0000_0000);
        assert(text::parse_int(s) == Some((-(m as int)) as i64));
        assert((-(m as int)) as i64 == i);
        assert forall|k: int| 0 <= k < s.len() implies text::is_digit(#[trigger] s[k]) || s[k]
            == '-' by {
            if k > 0 {
                assert(s[k] == dec_seq(m)[k - 1]);
            }
        }
    }
}

/// The characters a float-shaped token may contain.
pub open spec fn float_char(c: char) -> bool {
    text::is_digit(c) || c == '.' || c == '+' || c == '-' || c == 'e' || c == 'E'
}

proof fn lemma_float_exp_chars(s: Seq<char>, i: int)
    requires
        text::float_exp(s, i),
    ensures
        forall|j: int| i <= j < s.len() ==> float_char(#[trigger] s[j]),
{
    if 0 <= i < s.len() && (s[i] == '+' || s[i] == '-') {
        assert(text::float_exp_digits(s, i + 1));
        assert(forall|j: int| i + 1 <= j < s.len() ==> text::is_digit(#[trigger] s[j]));
    } else {
        assert(text::float_exp_digits(s, i));
    }
}

proof fn lemma_float_mantissa_chars(s: Seq<char>, i: int, hd: bool, hdot: bool)
    requires
        text::float_mantissa(s, i, hd, hdot),
    ensures
        forall|j: int| i <= j < s.len() ==> float_char(#[trigger] s[j]),
    decreases s.len() - i,
{
    if i < s.len() {
        if text::is_digit(s[i]) {
            lemma_float_mantissa_chars(s, i + 1, true, hdot);
        } else if s[i] == '.' {
            lemma_float_mantissa_chars(s, i + 1, hd, true);
        } else if s[i] == 'e' || s[i] == 'E' {
            lemma_float_exp_chars(s, i + 1);
        }
    }
}

proof fn lemma_float_str_chars(s: Seq<char>)
    requires
        text::is_float_str(s),
    ensures
        forall|j: int| 0 <= j < s.len() ==> float_char(#[trigger] s[j]),
        s.len() >= 1,
{
    if s[0] == '+' || s[0] == '-' {
        lemma_float_mantissa_chars(s, 1, false, false);
    } else {
        lemma_float_mantissa_chars(s, 0, false, false);
    }
}

proof fn lemma_scan_string_quoted(content: Seq<char>, rest: Seq<char>)
    ensures
        scan_string(escape_seq(content) + seq!['"'] + rest) == Some((content, rest)),
    decreases content.len(),
{
    let s = escape_seq(content) + seq!['"'] + rest;
    if content.len() == 0 {
        assert(s =~= seq!['"'] + rest);
        assert(s[0] == '"');
        assert(s.drop_first() =~= rest);
        assert(Seq::<char>::empty() =~= content);
    } else {
        let c = content[0];
        let tail = content.drop_first();
        lemma_scan_string_quoted(tail, rest);
        if c == '"' || c == '\\' {
            assert(escape_seq(content) == seq!['\\', c] + escape_seq(tail));
            assert(s[0] == '\\');
            assert(s.len() >= 2);
            assert(s[1] == c);
            assert(s.skip(2) =~= escape_seq(tail) + seq!['"'] + rest);
            assert(seq![c] + tail =~= content);
        } else {
            assert(escape_seq(content) == seq![c] + escape_seq(tail));
            assert(s[0] == c);
            assert(c != '\\' && c != '"');
            assert(s.drop_first() =~= escape_seq(tail) + seq!['"'] + rest);
            assert(seq![c] + tail =~= content);
        }
    }
}

proof fn lemma_parse_value_json(v: MeasVal, r: Seq<char>)
    requires
        wf_val(v),
        r.len() > 0,
        is_delim(r[0]),
    ensures
        parse_value(val_json(v) + r) == Some((v, r)),
{
    let s = val_json(v) + r;
    match v {
        MeasVal::Text(t) => {
            assert(s[0] == '"');
            assert(s.drop_first() =~= escape_seq(t) + seq!['"'] + r);
            lemma_scan_string_quoted(t, r);
        },
        MeasVal::Int(i) => {
            lemma_parse_int_int_seq(i);
            let tok = int_seq(i as int);
            assert(s[0] == tok[0]);
            assert(s[0] != '"' && !is_delim(s[0]));
            assert(forall|k: int| 0 <= k < tok.len() ==> !is_delim(#[trigger] tok[k]));
            lemma_scan_token_of(tok, r);
            assert(scan_token(s) == (tok, r));
        },
        MeasVal::Num(t) => {
            lemma_float_str_chars(t);
            assert(s[0] == t[0]);
            assert(s[0] != '"' && !is_delim(s[0]));
            assert(forall|k: int| 0 <= k < t.len() ==> !is_delim(#[trigger] t[k]));
            lemma_scan_token_of(t, r);
            assert(scan_token(s) == (t, r));
        },
    }
}

proof fn lemma_parse_entries_body(es: Seq<(Seq<char>, MeasVal)>, r: Seq<char>)
    requires
        es.len() > 0,
        wf_map(es),
    ensures
        parse_entries(body_json(es) + r) == Some((es, r)),
    decreases es.len(),
{
    let s = body_json(es) + r;
    let e = es[0];
    let key = e.0;
    let v = e.1;
    assert(wf_val(v));
    let close: Seq<char> = if es.len() == 1 {
        seq!['}']
    } else {
        seq![','] + body_json(es.drop_first())
    };
    assert(body_json(es) == entry_json(e) + close);
    assert(s =~= (quote_seq(key) + seq![':'] + val_json(v)) + (close + r));
    assert(s[0] == '"');
    assert(s.drop_first() =~= escape_seq(key) + seq!['"'] + (seq![':'] + val_json(v) + close + r));
    lemma_scan_string_quoted(key, seq![':'] + val_json(v) + close + r);
    let r1 = seq![':'] + val_json(v) + close + r;
    assert(r1[0] == ':');
    assert(r1.drop_first() =~= val_json(v) + (close + r));
    assert((close + r).len() > 0);
    assert((close + r)[0] == close[0]);
    assert(is_delim(close[0]));
    lemma_parse_value_json(v, close + r);
    let r3 = close + r;
    if es.len() == 1 {
        assert(r3[0] == '}');
        assert(r3.drop_first() =~= r);
        assert(seq![(key, v)] =~= es);
    } else {
        assert(r3[0] == ',');
        assert(r3.drop_first() =~= body_json(es.drop_first()) + r);
        assert(wf_map(es.drop_first())) by {
            assert(forall|i: int|
                0 <= i < es.drop_first().len() ==> #[trigger] es.drop_first()[i] == es[i + 1]);
        }
        lemma_parse_entries_body(es.drop_first(), r);
        assert(seq![(key, v)] + es.drop_first() =~= es);
    }
}

/// Parsing the JSON encoding of a well-formed measurement map returns that
/// map: serialising and reparsing measurements is the identity.
pub proof fn lemma_json_round_trip(es: Seq<(Seq<char>, MeasVal)>)
    requires
        wf_map(es),
    ensures
        parse_json(map_json(es)) == Some(es),
{
    let s = map_json(es);
    if es.len() == 0 {
        assert(s =~= seq!['{', '}']);
        assert(s[0] == '{');
        let t = s.drop_first();
        assert(t.len() == 1 && t[0] == '}');
        assert(Seq::<(Seq<char>, MeasVal)>::empty() =~= es);
    } else {
        assert(s[0] == '{');
        let t = s.drop_first();
        assert(t =~= body_json(es) + Seq::<char>::empty());
        lemma_parse_entries_body(es, Seq::empty());
        let e = es[0];
        assert(body_json(es) == entry_json(e) + (if es.len() == 1 {
            seq!['}']
        } else {
            seq![','] + body_json(es.drop_first())
        }));
        assert(t[0] == '"');
        assert(parse_entries(t) == Some((es, Seq::<char>::empty())));
    }
}

/// Reads a whole measurement object: an opening brace, bindings or nothing,
/// a closing brace, and nothing after it. The accepted grammar is the
/// compact form [`map_json`] emits: no whitespace between tokens, string
/// escapes limited to a backslash before any character (so `\"` and `\\`
/// round-trip; other JSON escapes read as the bare character). Text outside
/// this subset is rejected rather than guessed at.
pub open spec fn parse_json(s: Seq<char>) -> Option<Seq<(Seq<char>, MeasVal)>> {
    if s.len() == 0 || s[0] != '{' {
        None
    } else {
        let t = s.drop_first();
        if t.len() > 0 && t[0] == '}' {
            if t.len() == 1 {
                Some(Seq::empty())
            } else {
                None
            }
        } else {
            match parse_entries(t) {
                Some((es, rest)) => {
                    if rest.len() == 0 {
                        Some(es)
                    } else {
                        None
                    }
                },
                None => None,
            }
        }
    }
}

// ===================== executable decoding =====================

pub(crate) fn scan_string_exec(v: &Vec<char>, start: usize) -> (r: Option<(Vec<char>, usize)>)
    requires
        start <= v@.len(),
    ensures
        match r {
            Some((t, j)) => start <= j <= v@.len() && scan_string(v@.skip(start as int)) == Some(
                (t@, v@.skip(j as int)),
            ),
            None => scan_string(v@.skip(start as int)) is None,
        },
{
    let n = v.len();
    let mut acc: Vec<char> = Vec::new();
    let mut i: usize = start;
    proof {
        assert(acc@ + v@.skip(start as int) =~= v@.skip(start as int));
    }
    loop
        invariant
            start <= i <= n == v@.len(),
            scan_string(v@.skip(start as int)) == (match scan_string(v@.skip(i as int)) {
                Some((t, r)) => Some::<(Seq<char>, Seq<char>)>((acc@ + t, r)),
                None => None::<(Seq<char>, Seq<char>)>,
            }),
        decreases n - i,
    {
        let ghost cur = v@.skip(i as int);
        if i >= n {
            proof {
                assert(cur.len() == 0);
            }
            return None;
        }
        let c = v[i];
        proof {
            assert(cur[0] == c);
        }
        if c == '\\' {
            if i + 1 < n {
                proof {
                    assert(cur.len() >= 2);
                    assert(cur[1] == v@[i + 1]);
                    assert(cur.skip(2) =~= v@.skip(i + 2 as int));
                }
                let d = v[i + 1];
                acc.push(d);
                proof {
                    assert forall|t: Seq<char>| #[trigger] (seq![d] + t).len() >= 0 implies acc@
                        + t =~= (acc@.drop_last() + (seq![d] + t)) by {
                        assert(acc@.drop_last().push(d) =~= acc@);
                    }
                }
                i = i + 2;
            } else {
                proof {
                    assert(cur.len() == 1);
                }
                return None;
            }
        } else if c == '"' {
            proof {
                assert(cur.drop_first() =~= v@.skip(i + 1 as int));
                assert(scan_string(cur) == Some(
                    (Seq::<char>::empty(), v@.skip(i + 1 as int)),
                ));
                assert(acc@ + Seq::<char>::empty() =~= acc@);
            }
            return Some((acc, i + 1));
        } else {
            proof {
                assert(cur.drop_first() =~= v@.skip(i + 1 as int));
            }
            acc.push(c);
            proof {
                assert forall|t: Seq<char>| #[trigger] (seq![c] + t).len() >= 0 implies acc@
                    + t =~= (acc@.drop_last() + (seq![c] + t)) by {
                    assert(acc@.drop_last().push(c) =~= acc@);
                }
            }
            i = i + 1;
        }
    }
}

fn scan_token_exec(v: &Vec<char>, start: usize) -> (r: (Vec<char>, usize))
    requires
        start <= v@.len(),
    ensures
        start <= r.1 <= v@.len(),
        scan_token(v@.skip(start as int)) == (r.0@, v@.skip(r.1 as int)),
        r.0@.len() == r.1 - start,
{
    let n = v.len();
    let mut j: usize = start;
    while j < n && v[j] != ',' && v[j] != '}'
        invariant
            start <= j <= n == v@.len(),
            forall|k: int| start <= k < j ==> !is_delim(#[trigger] v@[k]),
        decreases n - j,
    {
        j = j + 1;
    }
    let tok = text::subrange_chars(v, start, j);
    proof {
        assert(v@.skip(start as int) =~= tok@ + v@.skip(j as int));
        assert(forall|k: int| 0 <= k < tok@.len() ==> !is_delim(#[trigger] tok@[k]));
        if j < n {
            assert(v@.skip(j as int)[0] == v@[j as int]);
        } else {
            assert(v@.skip(j as int).len() == 0);
        }
        lemma_scan_token_of(tok@, v@.skip(j as int));
    }
    (tok, j)
}

fn parse_value_exec(v: &Vec<char>, start: usize) -> (r: Option<(MeasValue, usize)>)
    requires
        start <= v@.len(),
    ensures
        match r {
            Some((mv, j)) => start <= j <= v@.len() && parse_value(v@.skip(start as int)) == Some(
                (mv@, v@.skip(j as int)),
            ),
            None => parse_value(v@.skip(start as int)) is None,
        },
{
    let n = v.len();
    if start >= n {
        proof {
            assert(v@.skip(start as int).len() == 0);
        }
        return None;
    }
    let ghost cur = v@.skip(start as int);
    let c = v[start];
    proof {
        assert(cur[0] == c);
    }
    if c == '"' {
        proof {
            assert(cur.drop_first() =~= v@.skip(start + 1 as int));
        }
        match scan_string_exec(v, start + 1) {
            Some((t, j)) => Some((MeasValue::Text(text::chars_to_string(&t)), j)),
            None => None,
        }
    } else {
        let (tok, j) = scan_token_exec(v, start);
        if tok.len() == 0 {
            None
        } else {
            match text::parse_int_chars(&tok) {
                Some(i) => Some((MeasValue::Int(i), j)),
                None => {
                    if text::is_float_chars(&tok) {
                        Some((MeasValue::Num(text::chars_to_string(&tok)), j))
                    } else {
                        None
                    }
                },
            }
        }
    }
}

fn parse_entries_exec(v: &Vec<char>, start: usize) -> (r: Option<
    (Vec<(String, MeasValue)>, usize),
>)
    requires
        start <= v@.len(),
    ensures
        match r {
            Some((es, j)) => start <= j <= v@.len() && parse_entries(v@.skip(start as int))
                == Some((entries_view(es@), v@.skip(j as int))),
            None => parse_entries(v@.skip(start as int)) is None,
        },
    decreases v@.len() - start,
{
    let n = v.len();
    let ghost cur = v@.skip(start as int);
    if start >= n {
        proof {
            assert(cur.len() == 0);
        }
        return None;
    }
    let c = v[start];
    proof {
        assert(cur[0] == c);
    }
    if c != '"' {
        return None;
    }
    proof {
        assert(cur.drop_first() =~= v@.skip(start + 1 as int));
    }
    let scanned = scan_string_exec(v, start + 1);
    match scanned {
        None => None,
        Some((key, j1)) => {
            proof {
                lemma_scan_string_shrinks(v@.skip(start + 1 as int));
                assert(v@.skip(j1 as int).len() < v@.skip(start + 1 as int).len());
                assert(j1 > start + 1);
            }
            if j1 >= n || v[j1] != ':' {
                proof {
                    if j1 < n {
                        assert(v@.skip(j1 as int)[0] == v@[j1 as int]);
                    }
                }
                return None;
            }
            proof {
                assert(v@.skip(j1 as int)[0] == ':');
                assert(v@.skip(j1 as int).drop_first() =~= v@.skip(j1 + 1 as int));
            }
            match parse_value_exec(v, j1 + 1) {
                None => None,
                Some((mv, j2)) => {
                    proof {
                        lemma_parse_value_shrinks(v@.skip(j1 + 1 as int));
                        assert(v@.skip(j2 as int).len() < v@.skip(j1 + 1 as int).len());
                        assert(j2 > j1 + 1);
                    }
                    if j2 >= n {
                        proof {
                            assert(v@.skip(j2 as int).len() == 0);
                        }
                        return None;
                    }
                    let d = v[j2];
                    proof {
                        assert(v@.skip(j2 as int)[0] == d);
                        assert(v@.skip(j2 as int).drop_first() =~= v@.skip(j2 + 1 as int));
                    }
                    if d == ',' {
                        match parse_entries_exec(v, j2 + 1) {
                            None => None,
                            Some((mut es, j3)) => {
                                let ks = text::chars_to_string(&key);
                                es.insert(0, (ks, mv));
                                proof {
                                    assert(entries_view(es@) =~= seq![(key@, mv@)] + entries_view(
                                        es@.drop_first(),
                                    ));
                                }
                                Some((es, j3))
                            },
                        }
                    } else if d == '}' {
                        let ks = text::chars_to_string(&key);
                        let mut es: Vec<(String, MeasValue)> = Vec::new();
                        es.push((ks, mv));
                        proof {
                            assert(entries_view(es@) =~= seq![(key@, mv@)]);
                        }
                        Some((es, j2 + 1))
                    } else {
                        None
                    }
                },
            }
        },
    }
}

/// Parses a JSON measurement object, exactly as [`parse_json`] reads it —
/// the compact subset the library itself writes; see [`parse_json`] for the
/// accepted grammar.
pub fn parse_measurements_json(s: &str) -> (r: Option<Vec<(String, MeasValue)>>)
    ensures
        match r {
            Some(m) => parse_json(s@) == Some(entries_view(m@)),
            None => parse_json(s@) is None,
        },
{
    let v = text::str_to_chars(s);
    let n = v.len();
    if n == 0 {
        return None;
    }
    if v[0] != '{' {
        return None;
    }
    let ghost t = v@.drop_first();
    proof {
        assert(t =~= v@.skip(1));
    }
    if n >= 2 && v[1] == '}' {
        proof {
            assert(t[0] == '}');
        }
        if n == 2 {
            let es: Vec<(String, MeasValue)> = Vec::new();
            proof {
                assert(entries_view(es@) =~= Seq::<(Seq<char>, MeasVal)>::empty());
            }
            return Some(es);
        }
        return None;
    }
    proof {
        if t.len() > 0 {
            assert(t[0] == v@[1]);
        }
    }
    match parse_entries_exec(&v, 1) {
        None => None,
        Some((es, j)) => {
            if j == n {
                proof {
                    assert(v@.skip(j as int).len() == 0);
                }
                Some(es)
            } else {
                None
            }
        },
    }
}

// ===================== map operations =====================

/// The index of the first binding of `k`, or a negative value if none.
pub open spec fn find_key(es: Seq<(Seq<char>, MeasVal)>, k: Seq<char>) -> int
    decreases es.len(),
{
    if es.len() == 0 {
        -1
    } else if es[0].0 == k {
        0
    } else {
        let r = find_key(es.drop_first(), k);
        if r < 0 {
            -1
        } else {
            r + 1
        }
    }
}

/// What [`find_key`] returns: a first occurrence, or a sign that none exists.
pub proof fn lemma_find_key(es: Seq<(Seq<char>, MeasVal)>, k: Seq<char>)
    ensures
        find_key(es, k) < 0 ==> forall|i: int| 0 <= i < es.len() ==> (#[trigger] es[i]).0 != k,
        find_key(es, k) >= 0 ==> 0 <= find_key(es, k) < es.len() && es[find_key(es, k)].0 == k
            && forall|i: int| 0 <= i < find_key(es, k) ==> (#[trigger] es[i]).0 != k,
    decreases es.len(),
{
    if es.len() > 0 && es[0].0 != k {
        lemma_find_key(es.drop_first(), k);
        assert(forall|i: int|
            1 <= i < es.len() ==> (#[trigger] es[i]) == es.drop_first()[i - 1]);
    }
}

/// The map after binding `k` to `v`: the first binding of `k` is replaced,
/// or the pair is appended if `k` is unbound.
pub open spec fn map_set(
    es: Seq<(Seq<char>, MeasVal)>,
    k: Seq<char>,
    v: MeasVal,
) -> Seq<(Seq<char>, MeasVal)> {
    let i = find_key(es, k);
    if i < 0 {
        es.push((k, v))
    } else {
        es.update(i, (k, v))
    }
}

/// The value bound to `k`, if any.
pub open spec fn map_get(es: Seq<(Seq<char>, MeasVal)>, k: Seq<char>) -> Option<MeasVal> {
    let i = find_key(es, k);
    if i < 0 {
        None
    } else {
        Some(es[i].1)
    }
}

/// Binding a well-formed value keeps the map well formed.
pub proof fn lemma_map_set_wf(es: Seq<(Seq<char>, MeasVal)>, k: Seq<char>, v: MeasVal)
    requires
        wf_map(es),
        wf_val(v),
    ensures
        wf_map(map_set(es, k, v)),
{
    lemma_find_key(es, k);
    let i = find_key(es, k);
    if i < 0 {
        let r = es.push((k, v));
        assert forall|a: int, b: int| 0 <= a < b < r.len() implies r[a].0 != r[b].0 by {
            if b < es.len() {
            } else {
                assert(r[b] == (k, v));
                assert(r[a] == es[a]);
            }
        }
    } else {
        let r = es.update(i, (k, v));
        assert forall|a: int, b: int| 0 <= a < b < r.len() implies r[a].0 != r[b].0 by {
            if a != i && b != i {
                assert(r[a] == es[a] && r[b] == es[b]);
            } else if a == i {
                assert(r[a].0 == k && r[b] == es[b]);
                assert(es[i].0 == k);
            } else {
                assert(r[b].0 == k && r[a] == es[a]);
                assert(es[i].0 == k);
            }
        }
    }
}

/// Finds the position of the first binding of `key`, per [`find_key`].
fn find_key_exec(m: &Vec<(String, MeasValue)>, key: &String) -> (r: Option<usize>)
    ensures
        match r {
            Some(i) => i < m@.len() && find_key(entries_view(m@), key@) == i,
            None => find_key(entries_view(m@), key@) < 0,
        },
{
    let n = m.len();
    let ghost ev = entries_view(m@);
    let mut i: usize = 0;
    while i < n
        invariant
            0 <= i <= n == m@.len(),
            ev == entries_view(m@),
            ev.len() == n,
            forall|t: int| 0 <= t < i ==> (#[trigger] ev[t]).0 != key@,
        decreases n - i,
    {
        if m[i].0 == *key {
            proof {
                assert(ev[i as int].0 == key@);
                lemma_find_key(ev, key@);
            }
            return Some(i);
        }
        i = i + 1;
    }
    proof {
        lemma_find_key(ev, key@);
        if find_key(ev, key@) >= 0 {
            assert(ev[find_key(ev, key@)].0 == key@);
        }
    }
    None
}

/// Binds `key` to `value`, per [`map_set`].
pub fn measurements_set(m: &mut Vec<(String, MeasValue)>, key: String, value: MeasValue)
    ensures
        entries_view(final(m)@) == map_set(entries_view(old(m)@), key@, value@),
{
    let ghost ev = entries_view(m@);
    let found = find_key_exec(m, &key);
    match found {
        Some(i) => {
            m.remove(i);
            m.insert(i, (key, value));
            proof {
                assert(entries_view(m@) =~= map_set(ev, key@, value@));
            }
        },
        None => {
            m.push((key, value));
            proof {
                assert(entries_view(m@) =~= map_set(ev, key@, value@));
            }
        },
    }
}

/// Looks `key` up, per [`map_get`].
pub fn measurements_get(m: &Vec<(String, MeasValue)>, key: &str) -> (r: Option<MeasValue>)
    ensures
        match r {
            Some(v) => map_get(entries_view(m@), key@) == Some(v@),
            None => map_get(entries_view(m@), key@) is None,
        },
{
    let n = m.len();
    let ghost ev = entries_view(m@);
    let keys = String::from_str(key);
    let mut i: usize = 0;
    while i < n
        invariant
            0 <= i <= n == m@.len(),
            ev == entries_view(m@),
            ev.len() == n,
            keys@ == key@,
            forall|t: int| 0 <= t < i ==> (#[trigger] ev[t]).0 != key@,
        decreases n - i,
    {
        if m[i].0 == keys {
            proof {
                lemma_find_key(ev, key@);
                assert(ev[i as int].0 == key@);
                assert(find_key(ev, key@) == i);
            }
            return Some(m[i].1.duplicate());
        }
        i = i + 1;
    }
    proof {
        lemma_find_key(ev, key@);
        if find_key(ev, key@) >= 0 {
            assert(ev[find_key(ev, key@)].0 == key@);
        }
    }
    None
}

} // verus!
