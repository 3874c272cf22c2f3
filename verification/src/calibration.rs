//! Calibration metadata: the per-channel transform description, its
//! identifier, and its JSON form as embedded in archive files.
//!
//! Coefficients are carried as JSON number texts, which keeps them
//! exact here; turning them into machine numbers is the caller's
//! concern at the serialization boundary.

use vstd::prelude::*;
use crate::text::{
    ascii_bytes, ascii_chars, ascii_to_string, chars_of, is_digit_char, lemma_seq_assoc,
};
use crate::names::{find_char_at, push_chars};

verus! {

/// The transform family: identity, affine, or polynomial with
/// ascending coefficients.
#[derive(Clone)]
pub enum CalibrationFormula {
    Identity,
    Linear { a: String, b: String },
    Polynomial { coeffs: Vec<String> },
}

/// A calibration: an optional opaque identifier and a formula.
#[derive(Clone)]
pub struct CalibrationSpec {
    pub id: Option<String>,
    pub formula: CalibrationFormula,
}

/// The mathematical shape of a calibration: its texts as character
/// sequences.
pub struct CalibrationView {
    pub id: Option<Seq<char>>,
    pub formula: FormulaView,
}

pub enum FormulaView {
    Identity,
    Linear { a: Seq<char>, b: Seq<char> },
    Polynomial { coeffs: Seq<Seq<char>> },
}

/// The view of a calibration value.
pub open spec fn calibration_view(c: CalibrationSpec) -> CalibrationView {
    CalibrationView {
        id: match c.id {
            Some(s) => Some(s@),
            None => None,
        },
        formula: match c.formula {
            CalibrationFormula::Identity => FormulaView::Identity,
            CalibrationFormula::Linear { a, b } => FormulaView::Linear { a: a@, b: b@ },
            CalibrationFormula::Polynomial { coeffs } => FormulaView::Polynomial {
                coeffs: Seq::new(coeffs@.len(), |i: int| coeffs@[i]@),
            },
        },
    }
}

impl CalibrationSpec {
    /// The calibration's identifier, or `identity` when unnamed.
    pub fn id_or_default(&self) -> (r: &str)
        ensures
            r@ == match self.id {
                Some(s) => s@,
                None => seq!['i', 'd', 'e', 'n', 't', 'i', 't', 'y'],
            },
    {
        match &self.id {
            Some(s) => s.as_str(),
            None => {
                proof {
                    reveal_strlit("identity");
                    assert("identity"@ =~= seq!['i', 'd', 'e', 'n', 't', 'i', 't', 'y']);
                }
                "identity"
            },
        }
    }

    /// The default calibration: the unnamed identity transform.
    pub fn new_identity() -> (r: CalibrationSpec)
        ensures
            r.id is None,
            r.formula is Identity,
    {
        CalibrationSpec { id: None, formula: CalibrationFormula::Identity }
    }
}

impl Default for CalibrationSpec {
    /// The calibration a channel gets when none is configured.
    fn default() -> (r: CalibrationSpec)
        ensures
            r.id is None,
            r.formula is Identity,
    {
        CalibrationSpec::new_identity()
    }
}

/// A character that may appear in a JSON number.
pub open spec fn is_json_number_char(c: char) -> bool {
    is_digit_char(c) || c == '.' || c == '-' || c == '+' || c == 'e' || c == 'E'
}

/// A usable coefficient text: non-empty, number characters only.
pub open spec fn valid_number_text(cs: Seq<char>) -> bool {
    cs.len() >= 1 && forall|i: int| 0 <= i < cs.len() ==> is_json_number_char(#[trigger] cs[i])
}

/// A string that can stand inside JSON quotes verbatim: printable
/// ASCII with no quote or backslash.
pub open spec fn json_plain_chars(cs: Seq<char>) -> bool {
    forall|i: int|
        0 <= i < cs.len() ==> (32 <= ((#[trigger] cs[i]) as u32) && (cs[i] as u32) < 127 && cs[i]
            != '"' && cs[i] != '\\')
}

/// The calibrations this module prints: plain identifier, well-formed
/// coefficient texts.
pub open spec fn wf_calibration_view(v: CalibrationView) -> bool {
    &&& match v.id {
        Some(s) => json_plain_chars(s),
        None => true,
    }
    &&& match v.formula {
        FormulaView::Identity => true,
        FormulaView::Linear { a, b } => valid_number_text(a) && valid_number_text(b),
        FormulaView::Polynomial { coeffs } => forall|i: int|
            0 <= i < coeffs.len() ==> valid_number_text(#[trigger] coeffs[i]),
    }
}

pub open spec fn lit_id_prefix() -> Seq<char> {
    seq!['{', '"', 'i', 'd', '"', ':']
}

pub open spec fn lit_null() -> Seq<char> {
    seq!['n', 'u', 'l', 'l']
}

pub open spec fn lit_type_identity() -> Seq<char> {
    seq![',', '"', 't', 'y', 'p', 'e', '"', ':', '"', 'i', 'd', 'e', 'n', 't', 'i', 't', 'y', '"', '}']
}

pub open spec fn lit_type_linear() -> Seq<char> {
    seq![',', '"', 't', 'y', 'p', 'e', '"', ':', '"', 'l', 'i', 'n', 'e', 'a', 'r', '"', ',', '"', 'a', '"', ':']
}

pub open spec fn lit_b_key() -> Seq<char> {
    seq![',', '"', 'b', '"', ':']
}

pub open spec fn lit_type_polynomial() -> Seq<char> {
    seq![',', '"', 't', 'y', 'p', 'e', '"', ':', '"', 'p', 'o', 'l', 'y', 'n', 'o', 'm', 'i', 'a', 'l', '"', ',', '"', 'c', 'o', 'e', 'f', 'f', 's', '"', ':', '[']
}

/// The quoted form of an identifier, or `null`.
pub open spec fn id_json_chars(id: Option<Seq<char>>) -> Seq<char> {
    match id {
        Some(s) => seq!['"'] + s + seq!['"'],
        None => lit_null(),
    }
}

/// The coefficient list's inner text: number texts joined by commas.
pub open spec fn coeffs_json_chars(coeffs: Seq<Seq<char>>) -> Seq<char>
    decreases coeffs.len(),
{
    if coeffs.len() == 0 {
        Seq::empty()
    } else if coeffs.len() == 1 {
        coeffs[0]
    } else {
        coeffs[0] + seq![','] + coeffs_json_chars(coeffs.skip(1))
    }
}

/// The JSON document of a calibration, exactly as this module prints
/// it: a tagged object with the identifier first.
pub open spec fn calibration_json_chars(v: CalibrationView) -> Seq<char> {
    lit_id_prefix() + id_json_chars(v.id) + (match v.formula {
        FormulaView::Identity => lit_type_identity(),
        FormulaView::Linear { a, b } => lit_type_linear() + a + lit_b_key() + b + seq!['}'],
        FormulaView::Polynomial { coeffs } => lit_type_polynomial() + coeffs_json_chars(coeffs)
            + seq![']', '}'],
    })
}

/// Appending one coefficient extends the joined text by a comma and
/// the text.
proof fn lemma_coeffs_chars_push(coeffs: Seq<Seq<char>>, x: Seq<char>)
    ensures
        coeffs_json_chars(coeffs.push(x)) == if coeffs.len() == 0 {
            x
        } else {
            coeffs_json_chars(coeffs) + seq![','] + x
        },
    decreases coeffs.len(),
{
    let p = coeffs.push(x);
    if coeffs.len() == 0 {
        assert(p.len() == 1);
        assert(p[0] == x);
    } else {
        lemma_coeffs_chars_push(coeffs.skip(1), x);
        assert(p.skip(1) =~= coeffs.skip(1).push(x));
        assert(p[0] == coeffs[0]);
        if coeffs.len() == 1 {
            assert(coeffs_json_chars(p) == p[0] + seq![','] + coeffs_json_chars(p.skip(1)));
            assert(coeffs_json_chars(coeffs) == coeffs[0]);
        } else {
            lemma_seq_assoc(coeffs[0], seq![','], coeffs_json_chars(coeffs.skip(1)));
            lemma_seq_assoc(
                coeffs[0],
                seq![','] + coeffs_json_chars(coeffs.skip(1)),
                seq![','] + x,
            );
            lemma_seq_assoc(coeffs[0] + seq![','] + coeffs_json_chars(coeffs.skip(1)), seq![','], x);
            lemma_seq_assoc(coeffs[0], seq![','], coeffs_json_chars(coeffs.skip(1)) + (seq![','] + x));
            assert(coeffs_json_chars(coeffs.skip(1)) + (seq![','] + x) =~= coeffs_json_chars(
                coeffs.skip(1),
            ) + seq![','] + x);
        }
    }
}

/// Prints a calibration as the JSON embedded in archive metadata.
#[verifier::rlimit(100)]
pub fn encode_calibration(c: &CalibrationSpec) -> (r: String)
    requires
        wf_calibration_view(calibration_view(*c)),
    ensures
        r@ == calibration_json_chars(calibration_view(*c)),
{
    let ghost v = calibration_view(*c);
    let mut out: Vec<u8> = Vec::new();
    proof {
        reveal_strlit("{\"id\":");
        reveal_strlit("null");
        reveal_strlit("\"");
        assert("{\"id\":"@ =~= lit_id_prefix());
        assert("null"@ =~= lit_null());
        assert("\""@ =~= seq!['"']);
    }
    push_chars(&mut out, "{\"id\":");
    match &c.id {
        Some(s) => {
            proof {
                assert(json_plain_chars(s@));
                assert(ascii_chars(s@));
            }
            push_chars(&mut out, "\"");
            push_chars(&mut out, s.as_str());
            push_chars(&mut out, "\"");
            proof {
                let b0 = lit_id_prefix();
                lemma_seq_assoc(b0, seq!['"'], s@);
                lemma_seq_assoc(b0, seq!['"'] + s@, seq!['"']);
                assert(chars_of(out@) == b0 + id_json_chars(v.id));
            }
        },
        None => {
            push_chars(&mut out, "null");
            proof {
                assert(chars_of(out@) == lit_id_prefix() + id_json_chars(v.id));
            }
        },
    }
    let ghost head = lit_id_prefix() + id_json_chars(v.id);
    match &c.formula {
        CalibrationFormula::Identity => {
            proof {
                reveal_strlit(",\"type\":\"identity\"}");
                assert(",\"type\":\"identity\"}"@ =~= lit_type_identity());
            }
            push_chars(&mut out, ",\"type\":\"identity\"}");
            proof {
                assert(chars_of(out@) == calibration_json_chars(v));
            }
        },
        CalibrationFormula::Linear { a, b } => {
            proof {
                reveal_strlit(",\"type\":\"linear\",\"a\":");
                reveal_strlit(",\"b\":");
                reveal_strlit("}");
                assert(",\"type\":\"linear\",\"a\":"@ =~= lit_type_linear());
                assert(",\"b\":"@ =~= lit_b_key());
                assert("}"@ =~= seq!['}']);
                assert(valid_number_text(a@) && valid_number_text(b@));
                lemma_number_text_ascii(a@);
                lemma_number_text_ascii(b@);
            }
            push_chars(&mut out, ",\"type\":\"linear\",\"a\":");
            push_chars(&mut out, a.as_str());
            push_chars(&mut out, ",\"b\":");
            push_chars(&mut out, b.as_str());
            push_chars(&mut out, "}");
            proof {
                let p1 = lit_type_linear();
                let p2 = a@;
                let p3 = lit_b_key();
                let p4 = b@;
                let p5 = seq!['}'];
                lemma_seq_assoc(head, p1, p2);
                lemma_seq_assoc(head, p1 + p2, p3);
                lemma_seq_assoc(head, p1 + p2 + p3, p4);
                lemma_seq_assoc(head, p1 + p2 + p3 + p4, p5);
                assert(chars_of(out@) == calibration_json_chars(v));
            }
        },
        CalibrationFormula::Polynomial { coeffs } => {
            proof {
                reveal_strlit(",\"type\":\"polynomial\",\"coeffs\":[");
                reveal_strlit(",");
                reveal_strlit("]}");
                assert(",\"type\":\"polynomial\",\"coeffs\":["@ =~= lit_type_polynomial());
                assert(","@ =~= seq![',']);
                assert("]}"@ =~= seq![']', '}']);
            }
            push_chars(&mut out, ",\"type\":\"polynomial\",\"coeffs\":[");
            let ghost cview = Seq::new(coeffs@.len(), |i: int| coeffs@[i]@);
            proof {
                assert(v.formula == FormulaView::Polynomial { coeffs: cview });
                match v.formula {
                    FormulaView::Polynomial { coeffs: ic } => {
                        assert forall|j: int| 0 <= j < cview.len() implies valid_number_text(
                            #[trigger] cview[j],
                        ) by {
                            assert(valid_number_text(ic[j]));
                            assert(ic == cview);
                        }
                    },
                    _ => {
                        assert(false);
                    },
                }
            }
            let n = coeffs.len();
            let mut i: usize = 0;
            while i < n
                invariant
                    i <= n == coeffs@.len(),
                    cview == Seq::new(coeffs@.len(), |j: int| coeffs@[j]@),
                    forall|j: int| 0 <= j < cview.len() ==> valid_number_text(#[trigger] cview[j]),
                    chars_of(out@) == head + lit_type_polynomial() + coeffs_json_chars(
                        cview.take(i as int),
                    ),
                    ascii_bytes(out@),
                    ","@ =~= seq![','],
                decreases n - i,
            {
                proof {
                    lemma_number_text_ascii(cview[i as int]);
                }
                if i > 0 {
                    push_chars(&mut out, ",");
                }
                let t = &coeffs[i];
                push_chars(&mut out, t.as_str());
                i += 1;
                proof {
                    assert(cview.take(i as int) =~= cview.take(i - 1).push(cview[i - 1]));
                    lemma_coeffs_chars_push(cview.take(i - 1), cview[i - 1]);
                    let hp = head + lit_type_polynomial();
                    if i == 1 {
                        assert(chars_of(out@) == hp + coeffs_json_chars(cview.take(1)));
                    } else {
                        lemma_seq_assoc(hp, coeffs_json_chars(cview.take(i - 1)), seq![',']);
                        lemma_seq_assoc(
                            hp,
                            coeffs_json_chars(cview.take(i - 1)) + seq![','],
                            cview[i - 1],
                        );
                        assert(chars_of(out@) == hp + coeffs_json_chars(cview.take(i as int)));
                    }
                }
            }
            push_chars(&mut out, "]}");
            proof {
                assert(cview.take(n as int) =~= cview);
                let hp = head + lit_type_polynomial();
                lemma_seq_assoc(hp, coeffs_json_chars(cview), seq![']', '}']);
                lemma_seq_assoc(head, lit_type_polynomial(), coeffs_json_chars(cview));
                assert(chars_of(out@) == calibration_json_chars(v));
            }
        },
    }
    proof {
        assert forall|i: int| 0 <= i < out@.len() implies out@[i] < 128 by {}
    }
    ascii_to_string(out)
}

/// What parsing the identifier field yields: the identifier and the
/// index just past it.
pub open spec fn spec_parse_id(cs: Seq<char>) -> Option<(Option<Seq<char>>, int)> {
    if cs.len() >= 10 && cs.subrange(6, 10) == lit_null() {
        Some((None, 10))
    } else if cs.len() > 6 && cs[6] == '"' {
        match find_char_at(cs, '"', 7) {
            None => None,
            Some(q) => {
                let id = cs.subrange(7, q);
                if json_plain_chars(id) {
                    Some((Some(id), q + 1))
                } else {
                    None
                }
            },
        }
    } else {
        None
    }
}

/// What parsing the bracketed coefficient list's inner text yields.
pub open spec fn spec_parse_coeffs(cs: Seq<char>) -> Option<Seq<Seq<char>>>
    decreases cs.len(),
{
    if cs.len() == 0 {
        Some(Seq::empty())
    } else {
        match find_char_at(cs, ',', 0) {
            None => if valid_number_text(cs) {
                Some(seq![cs])
            } else {
                None
            },
            Some(k) => if 0 <= k < cs.len() && valid_number_text(cs.take(k)) {
                match spec_parse_coeffs(cs.skip(k + 1)) {
                    Some(t) => Some(seq![cs.take(k)] + t),
                    None => None,
                }
            } else {
                None
            },
        }
    }
}

/// What parsing the formula tail (everything after the identifier)
/// yields.
pub open spec fn spec_parse_formula(rest: Seq<char>) -> Option<FormulaView> {
    if rest == lit_type_identity() {
        Some(FormulaView::Identity)
    } else if rest.len() > 27 && rest.take(21) == lit_type_linear() {
        match find_char_at(rest, ',', 21) {
            None => None,
            Some(k) => {
                let a = rest.subrange(21, k);
                if valid_number_text(a) && k + 5 < rest.len() && rest.subrange(k, k + 5)
                    == lit_b_key() && rest.last() == '}' && k + 5 < rest.len() - 1 {
                    let b = rest.subrange(k + 5, rest.len() - 1);
                    if valid_number_text(b) {
                        Some(FormulaView::Linear { a, b })
                    } else {
                        None
                    }
                } else {
                    None
                }
            },
        }
    } else if rest.len() >= 33 && rest.take(31) == lit_type_polynomial() && rest[rest.len() - 2]
        == ']' && rest.last() == '}' {
        match spec_parse_coeffs(rest.subrange(31, rest.len() - 2)) {
            Some(coeffs) => Some(FormulaView::Polynomial { coeffs }),
            None => None,
        }
    } else {
        None
    }
}

/// What parsing a calibration JSON document yields: defined exactly
/// on the canonical form this module prints.
pub open spec fn spec_parse_calibration(cs: Seq<char>) -> Option<CalibrationView> {
    if cs.len() >= 6 && cs.subrange(0, 6) == lit_id_prefix() {
        match spec_parse_id(cs) {
            None => None,
            Some((id, p)) => if p <= cs.len() {
                match spec_parse_formula(cs.subrange(p, cs.len() as int)) {
                    Some(f) => Some(CalibrationView { id, formula: f }),
                    None => None,
                }
            } else {
                None
            },
        }
    } else {
        None
    }
}

/// The joined coefficient text parses back to the coefficient list.
proof fn lemma_coeffs_round_trip(coeffs: Seq<Seq<char>>)
    requires
        forall|i: int| 0 <= i < coeffs.len() ==> valid_number_text(#[trigger] coeffs[i]),
    ensures
        spec_parse_coeffs(coeffs_json_chars(coeffs)) == Some(coeffs),
    decreases coeffs.len(),
{
    let cs = coeffs_json_chars(coeffs);
    if coeffs.len() == 0 {
        assert(cs =~= Seq::<char>::empty());
        assert(spec_parse_coeffs(cs) == Some(Seq::<Seq<char>>::empty()));
        assert(Seq::<Seq<char>>::empty() =~= coeffs);
    } else if coeffs.len() == 1 {
        assert(cs == coeffs[0]);
        assert forall|k: int| 0 <= k < cs.len() implies cs[k] != ',' by {
            assert(is_json_number_char(cs[k]));
        }
        crate::keys::lemma_find_none(cs, ',', 0);
        assert(seq![cs] =~= coeffs);
    } else {
        let h = coeffs[0];
        let t = coeffs.skip(1);
        assert forall|i: int| 0 <= i < t.len() implies valid_number_text(#[trigger] t[i]) by {
            assert(t[i] == coeffs[i + 1]);
        }
        lemma_coeffs_round_trip(t);
        assert(cs == h + seq![','] + coeffs_json_chars(t));
        assert(cs[h.len() as int] == ',');
        assert forall|k: int| 0 <= k < h.len() implies cs[k] != ',' by {
            assert(cs[k] == h[k]);
            assert(is_json_number_char(h[k]));
        }
        crate::keys::lemma_find_first(cs, ',', 0, h.len() as int);
        assert(cs.take(h.len() as int) =~= h);
        assert(cs.skip(h.len() as int + 1) =~= coeffs_json_chars(t));
        assert(seq![h] + t =~= coeffs);
    }
}

/// Printing then parsing a calibration is the identity: the JSON in
/// the archive metadata names exactly the calibration it was written
/// from.
#[verifier::rlimit(100)]
pub proof fn lemma_calibration_round_trip(v: CalibrationView)
    requires
        wf_calibration_view(v),
    ensures
        spec_parse_calibration(calibration_json_chars(v)) == Some(v),
{
    let cs = calibration_json_chars(v);
    let idc = id_json_chars(v.id);
    let tail = match v.formula {
        FormulaView::Identity => lit_type_identity(),
        FormulaView::Linear { a, b } => lit_type_linear() + a + lit_b_key() + b + seq!['}'],
        FormulaView::Polynomial { coeffs } => lit_type_polynomial() + coeffs_json_chars(coeffs)
            + seq![']', '}'],
    };
    assert(cs == lit_id_prefix() + idc + tail);
    assert(cs.subrange(0, 6) =~= lit_id_prefix());
    let p: int = match v.id {
        Some(s) => 7 + s.len() as int + 1,
        None => 10,
    };
    assert(spec_parse_id(cs) == Some((v.id, p))) by {
        match v.id {
            Some(s) => {
                assert(cs[6] == '"');
                assert(cs[7 + s.len() as int] == '"');
                assert forall|k: int| 7 <= k < 7 + s.len() implies cs[k] != '"' by {
                    assert(cs[k] == s[k - 7]);
                }
                crate::keys::lemma_find_first(cs, '"', 7, 7 + s.len() as int);
                assert(cs.subrange(7, 7 + s.len() as int) =~= s);
                if cs.len() >= 10 && cs.subrange(6, 10) == lit_null() {
                    assert(cs[6] == 'n');
                    assert(false);
                }
            },
            None => {
                assert(cs.subrange(6, 10) =~= lit_null());
            },
        }
    }
    let rest = cs.subrange(p, cs.len() as int);
    assert(rest =~= tail);
    assert(spec_parse_formula(tail) == Some(v.formula)) by {
        match v.formula {
            FormulaView::Identity => {},
            FormulaView::Linear { a, b } => {
                assert(tail.len() == 21 + a.len() + 5 + b.len() + 1);
                assert(tail != lit_type_identity()) by {
                    assert(tail[9] == 'l');
                    assert(lit_type_identity()[9] == 'i');
                }
                assert(tail.take(21) =~= lit_type_linear());
                let k = 21 + a.len() as int;
                assert(tail[k] == ',');
                assert forall|j: int| 21 <= j < k implies tail[j] != ',' by {
                    assert(tail[j] == a[j - 21]);
                    assert(is_json_number_char(a[j - 21]));
                }
                crate::keys::lemma_find_first(tail, ',', 21, k);
                assert(tail.subrange(21, k) =~= a);
                assert(tail.subrange(k, k + 5) =~= lit_b_key());
                assert(tail.last() == '}');
                assert(tail.subrange(k + 5, tail.len() - 1) =~= b);
            },
            FormulaView::Polynomial { coeffs } => {
                let inner = coeffs_json_chars(coeffs);
                assert(tail.len() == 31 + inner.len() + 2);
                assert(tail != lit_type_identity()) by {
                    assert(tail[9] == 'p');
                    assert(lit_type_identity()[9] == 'i');
                }
                assert(!(tail.len() > 27 && tail.take(21) == lit_type_linear())) by {
                    if tail.len() > 27 && tail.take(21) == lit_type_linear() {
                        assert(tail.take(21)[9] == tail[9]);
                        assert(tail[9] == 'p');
                        assert(lit_type_linear()[9] == 'l');
                    }
                }
                assert(tail.take(31) =~= lit_type_polynomial());
                assert(tail[tail.len() - 2] == ']');
                assert(tail.last() == '}');
                assert(tail.subrange(31, tail.len() - 2) =~= inner);
                match v.formula {
                    FormulaView::Polynomial { coeffs: ic } => {
                        assert forall|i: int| 0 <= i < coeffs.len() implies valid_number_text(
                            #[trigger] coeffs[i],
                        ) by {
                            assert(valid_number_text(ic[i]));
                        }
                    },
                    _ => {
                        assert(false);
                    },
                }
                lemma_coeffs_round_trip(coeffs);
            },
        }
    }
}

/// Whether the characters `from .. to` of `s` read as `lit`.
fn range_eq_lit(s: &str, from: usize, to: usize, lit: &str) -> (r: bool)
    requires
        from <= to <= s@.len(),
    ensures
        r == (s@.subrange(from as int, to as int) == lit@),
{
    let llen = lit.unicode_len();
    if to - from != llen {
        proof {
            assert(s@.subrange(from as int, to as int).len() != lit@.len());
        }
        return false;
    }
    let mut i: usize = 0;
    while i < llen
        invariant
            i <= llen == lit@.len(),
            from <= to <= s@.len(),
            to - from == llen,
            forall|j: int| 0 <= j < i ==> s@.subrange(from as int, to as int)[j] == lit@[j],
        decreases llen - i,
    {
        let a = s.get_char(from + i);
        let b = lit.get_char(i);
        if a != b {
            proof {
                assert(s@.subrange(from as int, to as int)[i as int] != lit@[i as int]);
            }
            return false;
        }
        i += 1;
        proof {
            assert(s@.subrange(from as int, to as int)[i - 1] == s@[from + i - 1]);
        }
    }
    proof {
        assert(s@.subrange(from as int, to as int) =~= lit@);
    }
    true
}

/// Whether the characters `from .. to` of `s` form a non-empty JSON
/// number text.
fn is_number_range(s: &str, from: usize, to: usize) -> (r: bool)
    requires
        from <= to <= s@.len(),
    ensures
        r == valid_number_text(s@.subrange(from as int, to as int)),
{
    if from == to {
        return false;
    }
    let mut i: usize = from;
    while i < to
        invariant
            from <= i <= to <= s@.len(),
            forall|j: int|
                from <= j < i ==> is_json_number_char(#[trigger] s@[j]),
        decreases to - i,
    {
        let c = s.get_char(i);
        let cu = c as u32;
        let ok = (48 <= cu && cu <= 57) || c == '.' || c == '-' || c == '+' || c == 'e' || c == 'E';
        if !ok {
            proof {
                assert(s@.subrange(from as int, to as int)[i - from] == s@[i as int]);
                assert(!is_json_number_char(s@[i as int]));
            }
            return false;
        }
        i += 1;
    }
    proof {
        assert forall|j: int|
            0 <= j < to - from implies is_json_number_char(
            #[trigger] s@.subrange(from as int, to as int)[j],
        ) by {
            assert(s@.subrange(from as int, to as int)[j] == s@[from + j]);
        }
    }
    true
}

/// Searching a suffix finds the same occurrences, shifted.
proof fn lemma_find_shift(cs: Seq<char>, c: char, off: int, m: int)
    requires
        0 <= off,
        0 <= m,
        off + m <= cs.len(),
    ensures
        find_char_at(cs.skip(off), c, m) == match find_char_at(cs, c, off + m) {
            Some(j) => Some(j - off),
            None => None,
        },
    decreases cs.len() - off - m,
{
    if off + m < cs.len() {
        assert(cs.skip(off)[m] == cs[off + m]);
        if cs[off + m] != c {
            lemma_find_shift(cs, c, off, m + 1);
        }
    }
}

/// Parses the coefficient texts of `inner` from `from` on.
fn parse_coeffs_from(inner: &str, from: usize) -> (r: Option<Vec<String>>)
    requires
        from <= inner@.len(),
    ensures
        match r {
            Some(v) => spec_parse_coeffs(inner@.skip(from as int)) == Some(
                Seq::new(v@.len(), |i: int| v@[i]@),
            ),
            None => spec_parse_coeffs(inner@.skip(from as int)) is None,
        },
    decreases inner@.len() - from,
{
    let n = inner.unicode_len();
    let ghost cs = inner@.skip(from as int);
    if from == n {
        proof {
            assert(cs.len() == 0);
            assert(Seq::new(0, |i: int| Seq::<char>::empty()) =~= Seq::<Seq<char>>::empty());
        }
        return Some(Vec::new());
    }
    match crate::names::find_char_from(inner, ',', from) {
        None => {
            proof {
                lemma_find_shift(inner@, ',', from as int, 0);
            }
            if is_number_range(inner, from, n) {
                proof {
                    assert(cs =~= inner@.subrange(from as int, n as int));
                }
                let t = inner.substring_char(from, n);
                let mut v: Vec<String> = Vec::new();
                v.push(String::from_str(t));
                proof {
                    assert(Seq::new(v@.len(), |i: int| v@[i]@) =~= seq![cs]);
                }
                Some(v)
            } else {
                proof {
                    assert(cs =~= inner@.subrange(from as int, n as int));
                }
                None
            }
        },
        Some(kabs) => {
            proof {
                lemma_find_shift(inner@, ',', from as int, 0);
                assert(find_char_at(cs, ',', 0) == Some(kabs - from as int));
                assert(cs.take(kabs - from as int) =~= inner@.subrange(from as int, kabs as int));
            }
            if !is_number_range(inner, from, kabs) {
                return None;
            }
            let head = String::from_str(inner.substring_char(from, kabs));
            proof {
                assert(cs.skip(kabs - from as int + 1) =~= inner@.skip(kabs + 1));
            }
            match parse_coeffs_from(inner, kabs + 1) {
                Some(mut tail) => {
                    let mut v: Vec<String> = Vec::new();
                    v.push(head);
                    let ghost tailviews = Seq::new(tail@.len(), |i: int| tail@[i]@);
                    v.append(&mut tail);
                    proof {
                        assert(Seq::new(v@.len(), |i: int| v@[i]@) =~= seq![
                            cs.take(kabs - from as int),
                        ] + tailviews);
                    }
                    Some(v)
                },
                None => None,
            }
        },
    }
}

/// Parses the identifier field of a calibration document.
fn parse_id_field(s: &str) -> (r: Option<(Option<String>, usize)>)
    ensures
        match r {
            Some(pair) => spec_parse_id(s@) == Some(
                (
                    match pair.0 {
                        Some(so) => Some(so@),
                        None => None,
                    },
                    pair.1 as int,
                ),
            ) && pair.1 <= s@.len(),
            None => spec_parse_id(s@) is None,
        },
{
    let n = s.unicode_len();
    proof {
        reveal_strlit("null");
        assert("null"@ =~= lit_null());
    }
    if n >= 10 && range_eq_lit(s, 6, 10, "null") {
        return Some((None, 10));
    }
    if n > 6 && s.get_char(6) == '"' {
        match crate::names::find_char_from(s, '"', 7) {
            None => None,
            Some(q) => {
                let ids = s.substring_char(7, q);
                proof {
                    assert(ids@ =~= s@.subrange(7, q as int));
                }
                let m = q - 7;
                let mut i: usize = 0;
                while i < m
                    invariant
                        i <= m == ids@.len(),
                        7 + m == q < s@.len(),
                        s@.len() > 6 && s@[6] == '"',
                        !(s@.len() >= 10 && s@.subrange(6, 10) == lit_null()),
                        find_char_at(s@, '"', 7) == Some(q as int),
                        ids@ == s@.subrange(7, 7 + m as int),
                        forall|j: int|
                            0 <= j < i ==> (32 <= ((#[trigger] ids@[j]) as u32) && (ids@[j] as u32)
                                < 127 && ids@[j] != '"' && ids@[j] != '\\'),
                    decreases m - i,
                {
                    let c = ids.get_char(i);
                    let cu = c as u32;
                    if !(32 <= cu && cu < 127 && c != '"' && c != '\\') {
                        proof {
                            assert(c == ids@[i as int]);
                            assert(!json_plain_chars(ids@));
                        }
                        return None;
                    }
                    i += 1;
                }
                proof {
                    assert(json_plain_chars(ids@));
                }
                Some((Some(String::from_str(ids)), q + 1))
            },
        }
    } else {
        None
    }
}

/// Parses the canonical calibration JSON this module prints.
#[verifier::rlimit(100)]
pub fn parse_calibration(s: &str) -> (r: Option<CalibrationSpec>)
    ensures
        match r {
            Some(c) => spec_parse_calibration(s@) == Some(calibration_view(c)),
            None => spec_parse_calibration(s@) is None,
        },
{
    let n = s.unicode_len();
    proof {
        reveal_strlit("{\"id\":");
        reveal_strlit("null");
        assert("{\"id\":"@ =~= lit_id_prefix());
        assert("null"@ =~= lit_null());
    }
    if n < 6 {
        proof {
            if s@.len() >= 6 {
                assert(false);
            }
        }
        return None;
    }
    if !range_eq_lit(s, 0, 6, "{\"id\":") {
        return None;
    }
    let (id, p): (Option<String>, usize) = match parse_id_field(s) {
        Some(pair) => pair,
        None => {
            return None;
        },
    };
    let ghost idview: Option<Seq<char>> = match &id {
        Some(so) => Some(so@),
        None => None,
    };
    proof {
        assert(spec_parse_id(s@) == Some((idview, p as int)));
    }
    if p > n {
        return None;
    }
    let rest = s.substring_char(p, n);
    let ghost restv = s@.subrange(p as int, n as int);
    proof {
        assert(rest@ =~= restv);
        reveal_strlit(",\"type\":\"identity\"}");
        reveal_strlit(",\"type\":\"linear\",\"a\":");
        reveal_strlit(",\"b\":");
        reveal_strlit(",\"type\":\"polynomial\",\"coeffs\":[");
        assert(",\"type\":\"identity\"}"@ =~= lit_type_identity());
        assert(",\"type\":\"linear\",\"a\":"@ =~= lit_type_linear());
        assert(",\"b\":"@ =~= lit_b_key());
        assert(",\"type\":\"polynomial\",\"coeffs\":["@ =~= lit_type_polynomial());
    }
    let rlen = rest.unicode_len();
    proof {
        assert(rest@.subrange(0, rlen as int) =~= rest@);
    }
    if rlen == 19 && range_eq_lit(rest, 0, rlen, ",\"type\":\"identity\"}") {
        proof {
            assert(restv == lit_type_identity());
        }
        return Some(CalibrationSpec { id, formula: CalibrationFormula::Identity });
    }
    proof {
        if restv == lit_type_identity() {
            assert(restv.len() == 19);
            assert(restv.subrange(0, 19) =~= restv);
            assert(false);
        }
    }
    if rlen > 27 && range_eq_lit(rest, 0, 21, ",\"type\":\"linear\",\"a\":") {
        proof {
            assert(rest@.subrange(0, 21) =~= restv.take(21));
        }
        match crate::names::find_char_from(rest, ',', 21) {
            None => {
                return None;
            },
            Some(k) => {
                if !is_number_range(rest, 21, k) {
                    return None;
                }
                if !(k + 5 < rlen && range_eq_lit(rest, k, k + 5, ",\"b\":") && rest.get_char(
                    rlen - 1,
                ) == '}' && k + 5 < rlen - 1) {
                    return None;
                }
                if !is_number_range(rest, k + 5, rlen - 1) {
                    return None;
                }
                let a = String::from_str(rest.substring_char(21, k));
                let b = String::from_str(rest.substring_char(k + 5, rlen - 1));
                proof {
                    assert(restv.last() == rest@[rlen - 1]);
                    assert(a@ =~= restv.subrange(21, k as int));
                    assert(b@ =~= restv.subrange(k + 5, restv.len() - 1));
                }
                return Some(CalibrationSpec { id, formula: CalibrationFormula::Linear { a, b } });
            },
        }
    }
    proof {
        if restv.len() > 27 && restv.take(21) == lit_type_linear() {
            assert(rest@.subrange(0, 21) =~= restv.take(21));
            assert(false);
        }
    }
    if rlen >= 33 && range_eq_lit(rest, 0, 31, ",\"type\":\"polynomial\",\"coeffs\":[")
        && rest.get_char(rlen - 2) == ']' && rest.get_char(rlen - 1) == '}' {
        proof {
            assert(rest@.subrange(0, 31) =~= restv.take(31));
        }
        let inner = rest.substring_char(31, rlen - 2);
        proof {
            assert(inner@ =~= restv.subrange(31, restv.len() - 2));
            assert(inner@.skip(0) =~= inner@);
        }
        match parse_coeffs_from(inner, 0) {
            Some(coeffs) => {
                let c = CalibrationSpec { id, formula: CalibrationFormula::Polynomial { coeffs } };
                proof {
                    assert(restv[restv.len() - 2] == ']' && restv.last() == '}');
                    assert(spec_parse_formula(restv) == Some(
                        calibration_view(c).formula,
                    ));
                }
                return Some(c);
            },
            None => {
                return None;
            },
        }
    }
    proof {
        if restv.len() >= 33 && restv.take(31) == lit_type_polynomial() && restv[restv.len() - 2]
            == ']' && restv.last() == '}' {
            assert(rest@.subrange(0, 31) =~= restv.take(31));
            assert(rest@[rlen - 2] == restv[restv.len() - 2]);
            assert(rest@[rlen - 1] == restv.last());
            assert(false);
        }
    }
    None
}

/// Number texts are ASCII.
proof fn lemma_number_text_ascii(cs: Seq<char>)
    requires
        valid_number_text(cs),
    ensures
        ascii_chars(cs),
{
    assert forall|i: int| 0 <= i < cs.len() implies (#[trigger] cs[i] as u32) < 128 by {
        assert(is_json_number_char(cs[i]));
    }
}

} // verus!
