//! The value model: validity of configuration values, numeric-string
//! recognition, type matching and type inference.
//!
//! A value is valid when it is a boolean, an integer, a string, or an array
//! of valid values; anything else an external source may carry (a float, a
//! date, an inline table) is modelled as [`ValModel::Other`] and rejected.
use vstd::prelude::*;

use crate::text::{int_dec, lemma_filter_empty, lemma_filter_push};
use crate::ty::{lemma_ty_model_seq, ty_model, ty_model_seq, ConfigType, TyModel};
use crate::{ConfigErr, ConfigResult};

verus! {

broadcast use
    vstd::std_specs::vec::group_vec_axioms,
    vstd::seq::group_seq_axioms,
    vstd::string::group_string_axioms;

/// The mathematical model of a raw configuration value.
#[verifier::ext_equal]
pub enum ValModel {
    Bool(bool),
    Int(int),
    Str(Seq<char>),
    Array(Seq<ValModel>),
    /// Any value kind the model does not support (float, date, table, ...).
    Other,
}

/// A raw configuration value, as handed over by the external parser.
#[derive(Debug)]
pub enum RawValue {
    /// A boolean.
    Bool(bool),
    /// A 64-bit integer.
    Int(i64),
    /// A text string.
    String(String),
    /// An ordered sequence of values.
    Array(Vec<RawValue>),
    /// An unsupported kind of value.
    Other,
}

/// The model of a [`RawValue`].
pub open spec fn val_model(v: RawValue) -> ValModel
    decreases v, 1int,
{
    match v {
        RawValue::Bool(b) => ValModel::Bool(b),
        RawValue::Int(i) => ValModel::Int(i as int),
        RawValue::String(s) => ValModel::Str(s@),
        RawValue::Array(es) => {
            proof {
                assert(decreases_to!(v => es));
                assert(decreases_to!(es => es@));
            }
            ValModel::Array(val_model_seq(es@))
        },
        RawValue::Other => ValModel::Other,
    }
}

/// The models of a sequence of raw values.
pub open spec fn val_model_seq(es: Seq<RawValue>) -> Seq<ValModel>
    decreases es, 0int,
{
    if es.len() == 0 {
        Seq::empty()
    } else {
        proof {
            assert(decreases_to!(es => es.subrange(0, es.len() - 1)));
            assert(decreases_to!(es => es[es.len() - 1]));
        }
        val_model_seq(es.subrange(0, es.len() - 1)).push(val_model(es[es.len() - 1]))
    }
}

/// `val_model_seq` maps `val_model` over the sequence.
pub proof fn lemma_val_model_seq(es: Seq<RawValue>)
    ensures
        val_model_seq(es).len() == es.len(),
        forall|i: int| 0 <= i < es.len() ==> val_model_seq(es)[i] == val_model(es[i]),
    decreases es.len(),
{
    if es.len() > 0 {
        lemma_val_model_seq(es.subrange(0, es.len() - 1));
        assert(forall|i: int|
            0 <= i < es.len() - 1 ==> es.subrange(0, es.len() - 1)[i] == #[trigger] es[i]);
    }
}

impl View for RawValue {
    type V = ValModel;

    open spec fn view(&self) -> ValModel {
        val_model(*self)
    }
}

impl Clone for RawValue {
    /// A deep copy with the same model.
    #[verifier::loop_isolation(false)]
    fn clone(&self) -> (res: Self)
        ensures
            res@ == self@,
        decreases *self,
    {
        match self {
            RawValue::Bool(b) => RawValue::Bool(*b),
            RawValue::Int(i) => RawValue::Int(*i),
            RawValue::String(s) => RawValue::String(s.clone()),
            RawValue::Array(es) => {
                let mut out: Vec<RawValue> = Vec::new();
                let mut i: usize = 0;
                while i < es.len()
                    invariant
                        i <= es@.len(),
                        out@.len() == i,
                        forall|k: int|
                            0 <= k < i ==> val_model(#[trigger] out@[k]) == val_model(es@[k]),
                    decreases es@.len() - i,
                {
                    proof {
                        assert(decreases_to!(*self => *es));
                        assert(decreases_to!(*es => es@));
                        assert(decreases_to!(es@ => es@[i as int]));
                    }
                    out.push(es[i].clone());
                    i = i + 1;
                }
                let r = RawValue::Array(out);
                proof {
                    lemma_val_model_seq(out@);
                    lemma_val_model_seq(es@);
                    assert(val_model_seq(out@) =~= val_model_seq(es@));
                }
                r
            },
            RawValue::Other => RawValue::Other,
        }
    }
}

/// Whether a value is valid: a boolean, an integer, a string, or an array of
/// valid values.
pub open spec fn val_valid(v: ValModel) -> bool
    decreases v, 1int,
{
    match v {
        ValModel::Array(es) => {
            proof {
                assert(decreases_to!(v => es));
            }
            val_valid_seq(es)
        },
        ValModel::Other => false,
        _ => true,
    }
}

/// Whether every value of a sequence is valid.
pub open spec fn val_valid_seq(es: Seq<ValModel>) -> bool
    decreases es, 0int,
{
    if es.len() == 0 {
        true
    } else {
        proof {
            assert(decreases_to!(es => es.subrange(0, es.len() - 1)));
            assert(decreases_to!(es => es[es.len() - 1]));
        }
        val_valid_seq(es.subrange(0, es.len() - 1)) && val_valid(es[es.len() - 1])
    }
}

/// `val_valid_seq` holds exactly when every element is valid.
pub proof fn lemma_val_valid_seq(es: Seq<ValModel>)
    ensures
        val_valid_seq(es) <==> (forall|i: int| 0 <= i < es.len() ==> val_valid(#[trigger] es[i])),
    decreases es.len(),
{
    if es.len() > 0 {
        let pre = es.subrange(0, es.len() - 1);
        lemma_val_valid_seq(pre);
        assert(forall|i: int| 0 <= i < es.len() - 1 ==> pre[i] == #[trigger] es[i]);
        if val_valid_seq(es) {
            assert forall|i: int| 0 <= i < es.len() implies val_valid(#[trigger] es[i]) by {
                if i < es.len() - 1 {
                    assert(val_valid(pre[i]));
                }
            }
        }
        if forall|i: int| 0 <= i < es.len() ==> val_valid(#[trigger] es[i]) {
            assert forall|i: int| 0 <= i < pre.len() implies val_valid(#[trigger] pre[i]) by {
                assert(pre[i] == es[i]);
            }
        }
    }
}

/// Lower-cases an ASCII capital letter, leaving every other character alone.
pub open spec fn lower_char(c: char) -> char {
    if 65 <= c as u32 <= 90 {
        ((c as u8) + 32) as char
    } else {
        c
    }
}

/// A numeric candidate, normalized: lower-cased, with `_` separators removed.
pub open spec fn norm_num(s: Seq<char>) -> Seq<char> {
    s.map_values(|c: char| lower_char(c)).filter(|c: char| c != '_')
}

/// The value of one digit character under the given radix, or `-1`.
pub open spec fn digit_val(c: char, radix: int) -> int {
    let u = c as u32;
    if 48 <= u <= 57 {
        if u - 48 < radix {
            u - 48
        } else {
            -1
        }
    } else if 97 <= u <= 102 && radix == 16 {
        u - 87
    } else {
        -1
    }
}

/// Whether a non-empty string consists of digits of the given radix.
pub open spec fn digits_ok(s: Seq<char>, radix: int) -> bool {
    s.len() > 0 && forall|i: int| 0 <= i < s.len() ==> digit_val(#[trigger] s[i], radix) >= 0
}

/// The integer a digit string denotes under the given radix.
pub open spec fn digits_val(s: Seq<char>, radix: int) -> int
    decreases s.len(),
{
    if s.len() == 0 {
        0
    } else {
        digits_val(s.drop_last(), radix) * radix + digit_val(s.last(), radix)
    }
}

/// Whether a digit string denotes a number that fits the machine word.
pub open spec fn num_ok(s: Seq<char>, radix: int) -> bool {
    digits_ok(s, radix) && digits_val(s, radix) <= usize::MAX as int
}

/// Whether a string is numeric-looking: after lower-casing and removal of
/// `_`, it is a non-negative integer in decimal, or with prefix `0x` (hex),
/// `0b` (binary) or `0o` (octal), no larger than the machine word.
pub open spec fn is_num_spec(s: Seq<char>) -> bool {
    let n = norm_num(s);
    if n.len() >= 2 && n[0] == '0' && n[1] == 'x' {
        num_ok(n.skip(2), 16)
    } else if n.len() >= 2 && n[0] == '0' && n[1] == 'b' {
        num_ok(n.skip(2), 2)
    } else if n.len() >= 2 && n[0] == '0' && n[1] == 'o' {
        num_ok(n.skip(2), 8)
    } else {
        num_ok(n, 10)
    }
}

/// A digit string of non-negative value never shrinks as digits are added.
proof fn lemma_digits_val_nonneg(s: Seq<char>, radix: int)
    requires
        radix >= 2,
        forall|i: int| 0 <= i < s.len() ==> digit_val(#[trigger] s[i], radix) >= 0,
    ensures
        digits_val(s, radix) >= 0,
    decreases s.len(),
{
    if s.len() > 0 {
        lemma_digits_val_nonneg(s.drop_last(), radix);
        assert(digits_val(s.drop_last(), radix) * radix >= 0) by (nonlinear_arith)
            requires
                digits_val(s.drop_last(), radix) >= 0,
                radix >= 2,
        ;
    }
}

/// The value of a prefix of a digit string is no larger than the value of
/// the whole string.
proof fn lemma_digits_val_prefix(s: Seq<char>, radix: int, j: int)
    requires
        radix >= 2,
        0 <= j <= s.len(),
        forall|i: int| 0 <= i < s.len() ==> digit_val(#[trigger] s[i], radix) >= 0,
    ensures
        digits_val(s.subrange(0, j), radix) <= digits_val(s, radix),
    decreases s.len() - j,
{
    if j == s.len() {
        assert(s.subrange(0, j) =~= s);
    } else {
        lemma_digits_val_prefix(s, radix, j + 1);
        let p = s.subrange(0, j);
        let q = s.subrange(0, j + 1);
        assert(q.drop_last() =~= p);
        assert(q.last() == s[j]);
        lemma_digits_val_nonneg(p, radix);
        assert(digits_val(p, radix) * radix >= digits_val(p, radix)) by (nonlinear_arith)
            requires
                digits_val(p, radix) >= 0,
                radix >= 2,
        ;
    }
}

/// Tests whether a string is numeric-looking (see [`is_num_spec`]).
fn is_num(s: &str) -> (r: bool)
    ensures
        r == is_num_spec(s@),
{
    let n: usize = s.unicode_len();
    let mut chars: Vec<char> = Vec::new();
    let mut i: usize = 0;
    proof {
        assert(s@.subrange(0, 0) =~= Seq::<char>::empty());
        assert(s@.subrange(0, 0).map_values(|c: char| lower_char(c)) =~= Seq::<char>::empty());
        lemma_filter_empty::<char>(|c: char| c != '_');
    }
    while i < n
        invariant
            i <= n,
            n == s@.len(),
            chars@ == norm_num(s@.subrange(0, i as int)),
        decreases n - i,
    {
        let c = s.get_char(i);
        let u: u32 = c as u32;
        let lc: char = if 65 <= u && u <= 90 {
            ((c as u8) + 32) as char
        } else {
            c
        };
        proof {
            let prefix = s@.subrange(0, i as int);
            assert(s@.subrange(0, i + 1) =~= prefix.push(s@[i as int]));
            assert(s@.subrange(0, i + 1).map_values(|c: char| lower_char(c)) =~= prefix.map_values(
                |c: char| lower_char(c),
            ).push(lower_char(s@[i as int])));
            lemma_filter_push(
                prefix.map_values(|c: char| lower_char(c)),
                |c: char| c != '_',
                lower_char(s@[i as int]),
            );
        }
        if lc != '_' {
            chars.push(lc);
        }
        i = i + 1;
    }
    proof {
        assert(s@.subrange(0, n as int) =~= s@);
    }
    let m = chars.len();
    if m >= 2 && chars[0] == '0' && chars[1] == 'x' {
        scan_digits(&chars, 2, 16)
    } else if m >= 2 && chars[0] == '0' && chars[1] == 'b' {
        scan_digits(&chars, 2, 2)
    } else if m >= 2 && chars[0] == '0' && chars[1] == 'o' {
        scan_digits(&chars, 2, 8)
    } else {
        proof {
            assert(chars@.skip(0) =~= chars@);
        }
        scan_digits(&chars, 0, 10)
    }
}

/// Scans the digits of `s` from position `from` on and decides whether they
/// form a number of the given radix that fits the machine word.
#[verifier::loop_isolation(false)]
fn scan_digits(s: &Vec<char>, from: usize, radix: usize) -> (r: bool)
    requires
        from <= s@.len(),
        2 <= radix <= 16,
    ensures
        r == num_ok(s@.skip(from as int), radix as int),
{
    let ghost ds = s@.skip(from as int);
    if from == s.len() {
        return false;
    }
    let mut acc: usize = 0;
    let mut i: usize = from;
    proof {
        assert(ds.subrange(0, 0) =~= Seq::<char>::empty());
    }
    while i < s.len()
        invariant
            from <= i <= s@.len(),
            forall|j: int| 0 <= j < i - from ==> digit_val(#[trigger] ds[j], radix as int) >= 0,
            acc == digits_val(ds.subrange(0, i - from), radix as int),
        decreases s@.len() - i,
    {
        let c = s[i];
        let u: u32 = c as u32;
        let dv: usize = if 48 <= u && u <= 57 {
            (u - 48) as usize
        } else if 97 <= u && u <= 102 {
            (u - 87) as usize
        } else {
            100
        };
        let d: usize = if 48 <= u && u <= 57 {
            if dv < radix {
                dv
            } else {
                proof {
                    assert(digit_val(ds[i - from], radix as int) < 0);
                }
                return false;
            }
        } else if 97 <= u && u <= 102 && radix == 16 {
            dv
        } else {
            proof {
                assert(digit_val(ds[i - from], radix as int) < 0);
            }
            return false;
        };
        proof {
            assert(d == digit_val(ds[i - from], radix as int));
            assert(ds.subrange(0, i - from + 1).drop_last() =~= ds.subrange(0, i - from));
            assert(ds.subrange(0, i - from + 1).last() == ds[i - from]);
        }
        if acc > (usize::MAX - d) / radix {
            proof {
                let next = ds.subrange(0, i - from + 1);
                assert(digits_val(next, radix as int) == acc * radix + d);
                assert(acc * radix + d > usize::MAX as int) by (nonlinear_arith)
                    requires
                        acc as int > ((usize::MAX as int) - (d as int)) / (radix as int),
                        0 <= d <= usize::MAX as int,
                        2 <= radix as int,
                ;
                if digits_ok(ds, radix as int) {
                    lemma_digits_val_prefix(ds, radix as int, i - from + 1);
                }
            }
            return false;
        }
        proof {
            assert(acc * radix + d <= usize::MAX as int) by (nonlinear_arith)
                requires
                    acc as int <= ((usize::MAX as int) - (d as int)) / (radix as int),
                    0 <= d <= usize::MAX as int,
                    2 <= radix as int,
            ;
        }
        acc = acc * radix + d;
        i = i + 1;
    }
    proof {
        assert(ds.subrange(0, s@.len() - from) =~= ds);
    }
    true
}

/// Whether a value satisfies a type.
///
/// A boolean satisfies `Bool`; an integer satisfies `Int` and `Uint`; a
/// numeric-looking string satisfies `Int`, `Uint` and `Str`, any other
/// string only `Str`; an array satisfies a tuple of the same length whose
/// member types its elements satisfy pointwise, and an array type whose
/// element type every element satisfies.  Nothing satisfies `Unknown`, and
/// an unsupported value satisfies nothing.
pub open spec fn matches_spec(v: ValModel, t: TyModel) -> bool
    decreases v,
{
    match v {
        ValModel::Bool(_) => t is Bool,
        ValModel::Int(_) => t is Int || t is Uint,
        ValModel::Str(s) => if is_num_spec(s) {
            t is Int || t is Uint || t is Str
        } else {
            t is Str
        },
        ValModel::Array(es) => {
            proof {
                assert(decreases_to!(v => es));
            }
            match t {
                TyModel::Tuple(ts) => es.len() == ts.len() && matches_zip(es, ts),
                TyModel::Array(et) => matches_all(es, *et),
                _ => false,
            }
        },
        ValModel::Other => false,
    }
}

/// Whether values and types of two equally long sequences match pointwise.
pub open spec fn matches_zip(es: Seq<ValModel>, ts: Seq<TyModel>) -> bool
    decreases es, 0int,
{
    if es.len() == 0 || es.len() != ts.len() {
        es.len() == ts.len()
    } else {
        proof {
            assert(decreases_to!(es => es.subrange(0, es.len() - 1)));
            assert(decreases_to!(es => es[es.len() - 1]));
        }
        matches_zip(es.subrange(0, es.len() - 1), ts.subrange(0, ts.len() - 1)) && matches_spec(
            es[es.len() - 1],
            ts[ts.len() - 1],
        )
    }
}

/// Whether every value of a sequence satisfies one type.
pub open spec fn matches_all(es: Seq<ValModel>, t: TyModel) -> bool
    decreases es, 0int,
{
    if es.len() == 0 {
        true
    } else {
        proof {
            assert(decreases_to!(es => es.subrange(0, es.len() - 1)));
            assert(decreases_to!(es => es[es.len() - 1]));
        }
        matches_all(es.subrange(0, es.len() - 1), t) && matches_spec(es[es.len() - 1], t)
    }
}

/// `matches_zip` holds exactly when the sequences have equal length and
/// match pointwise.
pub proof fn lemma_matches_zip(es: Seq<ValModel>, ts: Seq<TyModel>)
    requires
        es.len() == ts.len(),
    ensures
        matches_zip(es, ts) <==> (forall|i: int|
            0 <= i < es.len() ==> matches_spec(#[trigger] es[i], ts[i])),
    decreases es.len(),
{
    if es.len() > 0 {
        let pe = es.subrange(0, es.len() - 1);
        let pt = ts.subrange(0, ts.len() - 1);
        lemma_matches_zip(pe, pt);
        assert(forall|i: int| 0 <= i < es.len() - 1 ==> pe[i] == #[trigger] es[i]);
        assert(forall|i: int| 0 <= i < ts.len() - 1 ==> pt[i] == #[trigger] ts[i]);
        if matches_zip(es, ts) {
            assert forall|i: int| 0 <= i < es.len() implies matches_spec(
                #[trigger] es[i],
                ts[i],
            ) by {
                if i < es.len() - 1 {
                    assert(matches_spec(pe[i], pt[i]));
                }
            }
        }
        if forall|i: int| 0 <= i < es.len() ==> matches_spec(#[trigger] es[i], ts[i]) {
            assert forall|i: int| 0 <= i < pe.len() implies matches_spec(
                #[trigger] pe[i],
                pt[i],
            ) by {
                assert(pe[i] == es[i] && pt[i] == ts[i]);
            }
        }
    }
}

/// `matches_all` holds exactly when every element satisfies the type.
pub proof fn lemma_matches_all(es: Seq<ValModel>, t: TyModel)
    ensures
        matches_all(es, t) <==> (forall|i: int|
            0 <= i < es.len() ==> matches_spec(#[trigger] es[i], t)),
    decreases es.len(),
{
    if es.len() > 0 {
        let pe = es.subrange(0, es.len() - 1);
        lemma_matches_all(pe, t);
        assert(forall|i: int| 0 <= i < es.len() - 1 ==> pe[i] == #[trigger] es[i]);
        if matches_all(es, t) {
            assert forall|i: int| 0 <= i < es.len() implies matches_spec(#[trigger] es[i], t) by {
                if i < es.len() - 1 {
                    assert(matches_spec(pe[i], t));
                }
            }
        }
        if forall|i: int| 0 <= i < es.len() ==> matches_spec(#[trigger] es[i], t) {
            assert forall|i: int| 0 <= i < pe.len() implies matches_spec(#[trigger] pe[i], t) by {
                assert(pe[i] == es[i]);
            }
        }
    }
}

/// The inferred (minimal) type of a value, or `None` if the value is not
/// valid.
///
/// Booleans infer `Bool`; negative integers `Int`, other integers `Uint`;
/// numeric-looking strings `Uint`, other strings `Str`.  An empty array, or
/// an array any of whose elements infers `Unknown`, infers `Unknown`; an
/// array whose elements all infer the same type infers an array of it; any
/// other array infers the tuple of its elements' types.
pub open spec fn infer_spec(v: ValModel) -> Option<TyModel>
    decreases v, 1int,
{
    match v {
        ValModel::Bool(_) => Some(TyModel::Bool),
        ValModel::Int(i) => Some(
            if i < 0 {
                TyModel::Int
            } else {
                TyModel::Uint
            },
        ),
        ValModel::Str(s) => Some(
            if is_num_spec(s) {
                TyModel::Uint
            } else {
                TyModel::Str
            },
        ),
        ValModel::Array(es) => {
            proof {
                assert(decreases_to!(v => es));
            }
            match infer_seq(es) {
                None => None,
                Some(ts) => Some(
                    if ts.len() == 0 {
                        TyModel::Unknown
                    } else if exists|i: int| 0 <= i < ts.len() && (#[trigger] ts[i]) is Unknown {
                        TyModel::Unknown
                    } else if forall|i: int| 0 <= i < ts.len() ==> #[trigger] ts[i] == ts[0] {
                        TyModel::Array(Box::new(ts[0]))
                    } else {
                        TyModel::Tuple(ts)
                    },
                ),
            }
        },
        ValModel::Other => None,
    }
}

/// The inferred types of a sequence of values, or `None` if any is invalid.
pub open spec fn infer_seq(es: Seq<ValModel>) -> Option<Seq<TyModel>>
    decreases es, 0int,
{
    if es.len() == 0 {
        Some(Seq::empty())
    } else {
        proof {
            assert(decreases_to!(es => es.subrange(0, es.len() - 1)));
            assert(decreases_to!(es => es[es.len() - 1]));
        }
        match (infer_seq(es.subrange(0, es.len() - 1)), infer_spec(es[es.len() - 1])) {
            (Some(ts), Some(t)) => Some(ts.push(t)),
            _ => None,
        }
    }
}

/// `infer_seq` yields the pointwise inferences, or `None` exactly when one
/// element cannot be inferred.
pub proof fn lemma_infer_seq(es: Seq<ValModel>)
    ensures
        infer_seq(es) is Some <==> (forall|i: int|
            0 <= i < es.len() ==> (#[trigger] infer_spec(es[i])) is Some),
        infer_seq(es) matches Some(ts) ==> ts.len() == es.len() && (forall|i: int|
            0 <= i < es.len() ==> ts[i] == (#[trigger] infer_spec(es[i]))->Some_0),
    decreases es.len(),
{
    if es.len() > 0 {
        let pre = es.subrange(0, es.len() - 1);
        lemma_infer_seq(pre);
        assert(forall|i: int| 0 <= i < es.len() - 1 ==> pre[i] == #[trigger] es[i]);
        if infer_seq(es) is Some {
            let ts = infer_seq(es)->Some_0;
            let pts = infer_seq(pre)->Some_0;
            assert(ts == pts.push(infer_spec(es[es.len() - 1])->Some_0));
            assert forall|i: int|
                0 <= i < es.len() implies (#[trigger] infer_spec(es[i])) is Some by {
                if i < es.len() - 1 {
                    assert(infer_spec(pre[i]) is Some);
                }
            }
            assert forall|i: int|
                0 <= i < es.len() implies ts[i] == (#[trigger] infer_spec(es[i]))->Some_0 by {
                if i < es.len() - 1 {
                    assert(pts[i] == infer_spec(pre[i])->Some_0);
                }
            }
        }
        if (forall|i: int| 0 <= i < es.len() ==> (#[trigger] infer_spec(es[i])) is Some) {
            assert forall|i: int|
                0 <= i < pre.len() implies (#[trigger] infer_spec(pre[i])) is Some by {
                assert(pre[i] == es[i]);
            }
            assert(infer_seq(pre) is Some);
            assert(infer_spec(es[es.len() - 1]) is Some);
        }
    }
}


/// Whether a raw value is valid: a boolean, an integer, a string, or an
/// array of valid values.
#[verifier::loop_isolation(false)]
pub fn value_is_valid(v: &RawValue) -> (r: bool)
    ensures
        r == val_valid(v@),
    decreases *v,
{
    match v {
        RawValue::Bool(_) => true,
        RawValue::Int(_) => true,
        RawValue::String(_) => true,
        RawValue::Array(es) => {
            proof {
                lemma_val_model_seq(es@);
                lemma_val_valid_seq(val_model_seq(es@));
            }
            let mut i: usize = 0;
            while i < es.len()
                invariant
                    i <= es@.len(),
                    forall|k: int| 0 <= k < i ==> val_valid(#[trigger] val_model(es@[k])),
                decreases es@.len() - i,
            {
                proof {
                    assert(decreases_to!(*v => *es));
                    assert(decreases_to!(*es => es@));
                    assert(decreases_to!(es@ => es@[i as int]));
                }
                if !value_is_valid(&es[i]) {
                    proof {
                        assert(!val_valid(val_model_seq(es@)[i as int]));
                        assert(!val_valid_seq(val_model_seq(es@)));
                        assert(v@ == ValModel::Array(val_model_seq(es@)));
                    }
                    return false;
                }
                i = i + 1;
            }
            proof {
                assert(forall|k: int|
                    0 <= k < val_model_seq(es@).len() ==> val_valid(
                        #[trigger] val_model_seq(es@)[k],
                    ));
                assert(val_valid_seq(val_model_seq(es@)));
            }
            true
        },
        RawValue::Other => false,
    }
}

/// Whether a raw value satisfies a type (see [`matches_spec`]).
#[verifier::loop_isolation(false)]
pub fn value_type_matches(v: &RawValue, t: &ConfigType) -> (r: bool)
    ensures
        r == matches_spec(v@, t@),
    decreases *v,
{
    match v {
        RawValue::Bool(_) => match t {
            ConfigType::Bool => true,
            _ => false,
        },
        RawValue::Int(_) => match t {
            ConfigType::Int => true,
            ConfigType::Uint => true,
            _ => false,
        },
        RawValue::String(s) => {
            let num = is_num(s.as_str());
            match t {
                ConfigType::Int => num,
                ConfigType::Uint => num,
                ConfigType::String => true,
                _ => false,
            }
        },
        RawValue::Array(es) => {
            proof {
                lemma_val_model_seq(es@);
            }
            match t {
                ConfigType::Tuple(ts) => {
                    proof {
                        lemma_ty_model_seq(ts@);
                    }
                    if es.len() != ts.len() {
                        return false;
                    }
                    proof {
                        lemma_matches_zip(val_model_seq(es@), ty_model_seq(ts@));
                    }
                    let mut i: usize = 0;
                    while i < es.len()
                        invariant
                            i <= es@.len(),
                            es@.len() == ts@.len(),
                            forall|k: int|
                                0 <= k < i ==> matches_spec(
                                    #[trigger] val_model(es@[k]),
                                    ty_model(ts@[k]),
                                ),
                        decreases es@.len() - i,
                    {
                        proof {
                            assert(decreases_to!(*v => *es));
                            assert(decreases_to!(*es => es@));
                            assert(decreases_to!(es@ => es@[i as int]));
                        }
                        if !value_type_matches(&es[i], &ts[i]) {
                            proof {
                                assert(!matches_spec(
                                    val_model_seq(es@)[i as int],
                                    ty_model_seq(ts@)[i as int],
                                ));
                                assert(!matches_zip(val_model_seq(es@), ty_model_seq(ts@)));
                            }
                            return false;
                        }
                        i = i + 1;
                    }
                    proof {
                        assert(forall|k: int|
                            0 <= k < val_model_seq(es@).len() ==> matches_spec(
                                #[trigger] val_model_seq(es@)[k],
                                ty_model_seq(ts@)[k],
                            ));
                        assert(matches_zip(val_model_seq(es@), ty_model_seq(ts@)));
                    }
                    true
                },
                ConfigType::Array(et) => {
                    proof {
                        lemma_matches_all(val_model_seq(es@), ty_model(**et));
                    }
                    let mut i: usize = 0;
                    while i < es.len()
                        invariant
                            i <= es@.len(),
                            forall|k: int|
                                0 <= k < i ==> matches_spec(
                                    #[trigger] val_model(es@[k]),
                                    ty_model(**et),
                                ),
                        decreases es@.len() - i,
                    {
                        proof {
                            assert(decreases_to!(*v => *es));
                            assert(decreases_to!(*es => es@));
                            assert(decreases_to!(es@ => es@[i as int]));
                        }
                        if !value_type_matches(&es[i], et) {
                            proof {
                                assert(!matches_spec(val_model_seq(es@)[i as int], ty_model(**et)));
                                assert(!matches_all(val_model_seq(es@), ty_model(**et)));
                                assert(v@ == ValModel::Array(val_model_seq(es@)));
                                assert(t@ == TyModel::Array(Box::new(ty_model(**et))));
                            }
                            return false;
                        }
                        i = i + 1;
                    }
                    proof {
                        assert(forall|k: int|
                            0 <= k < val_model_seq(es@).len() ==> matches_spec(
                                #[trigger] val_model_seq(es@)[k],
                                ty_model(**et),
                            ));
                        assert(matches_all(val_model_seq(es@), ty_model(**et)));
                    }
                    true
                },
                _ => false,
            }
        },
        RawValue::Other => false,
    }
}

/// Infers the minimal type of a raw value (see [`infer_spec`]), or reports
/// `InvalidValue` for a value that is not valid.
#[verifier::loop_isolation(false)]
pub fn inferred_type(v: &RawValue) -> (r: ConfigResult<ConfigType>)
    ensures
        match r {
            Ok(t) => infer_spec(v@) == Some(t@),
            Err(e) => infer_spec(v@) is None && e is InvalidValue,
        },
    decreases *v,
{
    match v {
        RawValue::Bool(_) => Ok(ConfigType::Bool),
        RawValue::Int(i) => {
            if *i < 0 {
                Ok(ConfigType::Int)
            } else {
                Ok(ConfigType::Uint)
            }
        },
        RawValue::String(s) => {
            if is_num(s.as_str()) {
                Ok(ConfigType::Uint)
            } else {
                Ok(ConfigType::String)
            }
        },
        RawValue::Array(es) => {
            let ghost esm = val_model_seq(es@);
            proof {
                lemma_val_model_seq(es@);
                lemma_infer_seq(esm);
            }
            let mut ts: Vec<ConfigType> = Vec::new();
            let mut i: usize = 0;
            while i < es.len()
                invariant
                    i <= es@.len(),
                    ts@.len() == i,
                    forall|k: int|
                        0 <= k < i ==> infer_spec(#[trigger] val_model(es@[k])) == Some(
                            ty_model(ts@[k]),
                        ),
                decreases es@.len() - i,
            {
                proof {
                    assert(decreases_to!(*v => *es));
                    assert(decreases_to!(*es => es@));
                    assert(decreases_to!(es@ => es@[i as int]));
                }
                match inferred_type(&es[i]) {
                    Ok(t) => {
                        ts.push(t);
                    },
                    Err(_) => {
                        proof {
                            assert(infer_spec(esm[i as int]) is None);
                            assert(infer_seq(esm) is None);
                        }
                        return Err(ConfigErr::InvalidValue);
                    },
                }
                i = i + 1;
            }
            let ghost tsm = infer_seq(esm)->Some_0;
            proof {
                assert forall|k: int|
                    0 <= k < esm.len() implies (#[trigger] infer_spec(esm[k])) is Some by {
                    assert(esm[k] == val_model(es@[k]));
                }
                assert(infer_seq(esm) is Some);
                lemma_ty_model_seq(ts@);
                assert forall|k: int|
                    0 <= k < i implies tsm[k] == ty_model(#[trigger] ts@[k]) by {
                    assert(esm[k] == val_model(es@[k]));
                    assert(infer_spec(esm[k]) == Some(ty_model(ts@[k])));
                    assert(tsm[k] == infer_spec(esm[k])->Some_0);
                }
            }
            if ts.len() == 0 {
                return Ok(ConfigType::Unknown);
            }
            let mut j: usize = 0;
            while j < ts.len()
                invariant
                    j <= ts@.len(),
                    forall|k: int| 0 <= k < j ==> !(ty_model(#[trigger] ts@[k]) is Unknown),
                decreases ts@.len() - j,
            {
                let unknown = match &ts[j] {
                    ConfigType::Unknown => true,
                    _ => false,
                };
                if unknown {
                    proof {
                        assert(tsm[j as int] is Unknown);
                    }
                    return Ok(ConfigType::Unknown);
                }
                j = j + 1;
            }
            proof {
                assert forall|k: int| 0 <= k < tsm.len() implies !((#[trigger] tsm[k])
                    is Unknown) by {
                    assert(tsm[k] == ty_model(ts@[k]));
                    assert(!(ty_model(ts@[k]) is Unknown));
                }
            }
            let mut all_same = true;
            let mut w: usize = 1;
            while w < ts.len()
                invariant
                    1 <= w <= ts@.len(),
                    all_same == (forall|k: int|
                        0 <= k < w ==> ty_model(#[trigger] ts@[k]) == ty_model(ts@[0])),
                decreases ts@.len() - w,
            {
                if !crate::ty::ty_eq(&ts[w], &ts[0]) {
                    all_same = false;
                }
                w = w + 1;
            }
            if all_same {
                let t0 = ts[0].clone();
                let r = ConfigType::Array(Box::new(t0));
                proof {
                    assert forall|k: int| 0 <= k < tsm.len() implies #[trigger] tsm[k]
                        == tsm[0] by {
                        assert(tsm[k] == ty_model(ts@[k]));
                        assert(ty_model(ts@[k]) == ty_model(ts@[0]));
                    }
                    assert(r@ == TyModel::Array(Box::new(tsm[0])));
                }
                Ok(r)
            } else {
                let ghost bad = choose|k: int|
                    0 <= k < ts@.len() && #[trigger] ty_model(ts@[k]) != ty_model(ts@[0]);
                let r = ConfigType::Tuple(ts);
                proof {
                    assert(tsm[bad] != tsm[0]);
                    assert(!(forall|k: int|
                        0 <= k < tsm.len() ==> #[trigger] tsm[k] == tsm[0]));
                    assert(ty_model_seq(r->Tuple_0@) =~= tsm);
                    assert(r@ == TyModel::Tuple(tsm));
                }
                Ok(r)
            }
        },
        RawValue::Other => Err(ConfigErr::InvalidValue),
    }
}

/// Inference yields a type exactly for the valid values.
pub proof fn lemma_infer_validity(v: ValModel)
    ensures
        infer_spec(v) is Some <==> val_valid(v),
    decreases v,
{
    match v {
        ValModel::Array(es) => {
            lemma_infer_seq(es);
            lemma_val_valid_seq(es);
            assert forall|i: int| 0 <= i < es.len() implies ((#[trigger] infer_spec(es[i]))
                is Some <==> val_valid(es[i])) by {
                assert(decreases_to!(v => es));
                assert(decreases_to!(es => es[i]));
                lemma_infer_validity(es[i]);
            }
            if val_valid(v) {
                assert(val_valid_seq(es));
                assert forall|i: int| 0 <= i < es.len() implies (#[trigger] infer_spec(es[i]))
                    is Some by {
                    assert(val_valid(es[i]));
                }
                assert(infer_seq(es) is Some);
            }
            if infer_spec(v) is Some {
                assert(infer_seq(es) is Some);
                assert forall|i: int| 0 <= i < es.len() implies val_valid(#[trigger] es[i]) by {
                    assert(infer_spec(es[i]) is Some);
                }
                assert(val_valid_seq(es));
            }
        },
        _ => {},
    }
}

/// A value that is not valid satisfies no type at all.
pub proof fn lemma_match_needs_valid(v: ValModel, t: TyModel)
    ensures
        !val_valid(v) ==> !matches_spec(v, t),
    decreases v,
{
    match v {
        ValModel::Array(es) => {
            if !val_valid(v) && matches_spec(v, t) {
                lemma_val_valid_seq(es);
                let i = choose|i: int| 0 <= i < es.len() && !val_valid(#[trigger] es[i]);
                assert(decreases_to!(v => es));
                assert(decreases_to!(es => es[i]));
                match t {
                    TyModel::Tuple(ts) => {
                        lemma_matches_zip(es, ts);
                        lemma_match_needs_valid(es[i], ts[i]);
                        assert(matches_spec(es[i], ts[i]));
                    },
                    TyModel::Array(et) => {
                        lemma_matches_all(es, *et);
                        lemma_match_needs_valid(es[i], *et);
                        assert(matches_spec(es[i], *et));
                    },
                    _ => {},
                }
            }
        },
        _ => {},
    }
}

/// Inference soundness: whenever inference yields a type other than
/// `Unknown`, the value satisfies that type.
pub proof fn lemma_infer_sound(v: ValModel)
    requires
        infer_spec(v) is Some,
        !(infer_spec(v)->Some_0 is Unknown),
    ensures
        matches_spec(v, infer_spec(v)->Some_0),
    decreases v,
{
    match v {
        ValModel::Array(es) => {
            lemma_infer_seq(es);
            let ts = infer_seq(es)->Some_0;
            let r = infer_spec(v)->Some_0;
            assert(ts.len() > 0);
            assert(!(exists|i: int| 0 <= i < ts.len() && (#[trigger] ts[i]) is Unknown));
            assert forall|i: int| 0 <= i < es.len() implies matches_spec(
                #[trigger] es[i],
                ts[i],
            ) by {
                assert(decreases_to!(v => es));
                assert(decreases_to!(es => es[i]));
                assert(infer_spec(es[i]) == Some(ts[i]));
                assert(!(ts[i] is Unknown));
                lemma_infer_sound(es[i]);
            }
            if forall|i: int| 0 <= i < ts.len() ==> #[trigger] ts[i] == ts[0] {
                assert(r == TyModel::Array(Box::new(ts[0])));
                assert(forall|i: int|
                    0 <= i < es.len() ==> matches_spec(#[trigger] es[i], ts[0]));
                lemma_matches_all(es, ts[0]);
            } else {
                assert(r == TyModel::Tuple(ts));
                lemma_matches_zip(es, ts);
            }
        },
        _ => {},
    }
}

/// An inferred type other than `Unknown` holds no `Unknown` anywhere.
pub proof fn lemma_infer_known(v: ValModel)
    requires
        infer_spec(v) is Some,
        !(infer_spec(v)->Some_0 is Unknown),
    ensures
        crate::ty::ty_known(infer_spec(v)->Some_0),
    decreases v,
{
    match v {
        ValModel::Array(es) => {
            lemma_infer_seq(es);
            let ts = infer_seq(es)->Some_0;
            let r = infer_spec(v)->Some_0;
            assert(ts.len() > 0);
            assert(!(exists|i: int| 0 <= i < ts.len() && (#[trigger] ts[i]) is Unknown));
            assert forall|i: int| 0 <= i < ts.len() implies crate::ty::ty_known(
                #[trigger] ts[i],
            ) by {
                assert(decreases_to!(v => es));
                assert(decreases_to!(es => es[i]));
                assert(infer_spec(es[i]) == Some(ts[i]));
                assert(!(ts[i] is Unknown));
                lemma_infer_known(es[i]);
            }
            if forall|i: int| 0 <= i < ts.len() ==> #[trigger] ts[i] == ts[0] {
                assert(r == TyModel::Array(Box::new(ts[0])));
            } else {
                assert(r == TyModel::Tuple(ts));
            }
        },
        _ => {},
    }
}

/// The model of a typed configuration value.
#[verifier::ext_equal]
pub struct CfgValModel {
    /// The raw value.
    pub value: ValModel,
    /// The declared type, if an annotation carried one.
    pub ty: Option<TyModel>,
}

/// A typed configuration value: a valid raw value together with an optional
/// declared type that the value satisfies.
#[derive(Debug)]
pub struct ConfigValue {
    value: RawValue,
    ty: Option<ConfigType>,
}

impl View for ConfigValue {
    type V = CfgValModel;

    closed spec fn view(&self) -> CfgValModel {
        CfgValModel {
            value: val_model(self.value),
            ty: match self.ty {
                None => None,
                Some(t) => Some(ty_model(t)),
            },
        }
    }
}

/// Well-formedness of a typed value: the raw value is valid, and it
/// satisfies its declared type where one is present.
pub open spec fn cv_wf(m: CfgValModel) -> bool {
    &&& val_valid(m.value)
    &&& match m.ty {
        Some(t) => matches_spec(m.value, t) && crate::ty::ty_known(t),
        None => true,
    }
}

impl Clone for ConfigValue {
    /// A deep copy with the same model.
    fn clone(&self) -> (res: Self)
        ensures
            res@ == self@,
    {
        ConfigValue {
            value: self.value.clone(),
            ty: match &self.ty {
                None => None,
                Some(t) => Some(t.clone()),
            },
        }
    }
}

impl ConfigValue {
    /// Wraps a raw value with no declared type.  Rejects invalid values.
    pub fn from_raw_value(value: RawValue) -> (r: ConfigResult<ConfigValue>)
        ensures
            match r {
                Ok(cv) => cv@ == (CfgValModel { value: val_model(value), ty: None })
                    && val_valid(val_model(value)) && cv_wf(cv@),
                Err(e) => !val_valid(val_model(value)) && e is InvalidValue,
            },
    {
        if !value_is_valid(&value) {
            return Err(ConfigErr::InvalidValue);
        }
        Ok(ConfigValue { value, ty: None })
    }

    /// Wraps a raw value with a declared type.  Rejects invalid values, and
    /// values that do not satisfy the type.  A declared type is always fully
    /// known: the type parser never produces `Unknown`.
    pub fn from_raw_value_type(value: RawValue, ty: ConfigType) -> (r: ConfigResult<ConfigValue>)
        requires
            crate::ty::ty_known(ty_model(ty)),
        ensures
            match r {
                Ok(cv) => cv@ == (CfgValModel {
                    value: val_model(value),
                    ty: Some(ty_model(ty)),
                }) && val_valid(val_model(value)) && matches_spec(val_model(value), ty_model(ty))
                    && cv_wf(cv@),
                Err(e) => {
                    &&& !(val_valid(val_model(value)) && matches_spec(
                        val_model(value),
                        ty_model(ty),
                    ))
                    &&& !val_valid(val_model(value)) ==> e is InvalidValue
                    &&& val_valid(val_model(value)) ==> (e matches ConfigErr::ValueTypeMismatch(
                        k,
                        ex,
                    ) && k@ == Seq::<char>::empty() && ex@ == crate::ty::ty_text(ty_model(ty)))
                },
            },
    {
        if !value_is_valid(&value) {
            return Err(ConfigErr::InvalidValue);
        }
        if value_type_matches(&value, &ty) {
            Ok(ConfigValue { value, ty: Some(ty) })
        } else {
            let r = Err(ConfigErr::ValueTypeMismatch(String::new(), ty.to_annot_string()));
            r
        }
    }

    /// The declared type, if any.
    pub fn ty(&self) -> (r: Option<&ConfigType>)
        ensures
            match r {
                Some(t) => self@.ty == Some(t@),
                None => self@.ty is None,
            },
    {
        self.ty.as_ref()
    }

    /// A reference to the raw value.
    pub fn raw(&self) -> (r: &RawValue)
        ensures
            r@ == self@.value,
    {
        &self.value
    }

    /// The inferred type of the held value (see [`infer_spec`]).
    pub fn inferred_type(self) -> (r: ConfigResult<ConfigType>)
        ensures
            match r {
                Ok(t) => infer_spec(self@.value) == Some(t@),
                Err(e) => infer_spec(self@.value) is None && e is InvalidValue,
            },
    {
        inferred_type(&self.value)
    }

    /// Whether the held value satisfies the given type.
    pub fn type_matches(&self, ty: &ConfigType) -> (r: bool)
        ensures
            r == matches_spec(self@.value, ty@),
    {
        value_type_matches(&self.value, ty)
    }

    /// Replaces the held value by a new one, under the type-matching
    /// discipline: with a declared type the new value must satisfy it, and
    /// the type is retained; without one the value is simply replaced.
    pub fn update(&mut self, new: ConfigValue) -> (r: ConfigResult<()>)
        requires
            cv_wf(old(self)@),
            cv_wf(new@),
        ensures
            cv_wf(final(self)@),
            match r {
                Ok(_) => final(self)@ == (CfgValModel {
                    value: new@.value,
                    ty: old(self)@.ty,
                }) && (old(self)@.ty matches Some(t) ==> matches_spec(new@.value, t)),
                Err(e) => {
                    &&& final(self)@ == old(self)@
                    &&& (e matches ConfigErr::ValueTypeMismatch(k, ex) && k@ == Seq::<
                        char,
                    >::empty() && (old(self)@.ty matches Some(t) && !matches_spec(new@.value, t)
                        && ex@ == crate::ty::ty_text(t)))
                },
            },
    {
        match &self.ty {
            Some(t) => {
                if value_type_matches(&new.value, t) {
                    self.value = new.value;
                    Ok(())
                } else {
                    Err(ConfigErr::ValueTypeMismatch(String::new(), t.to_annot_string()))
                }
            },
            None => {
                self.value = new.value;
                Ok(())
            },
        }
    }
}



/// The TOML escape of one string character: quote, backslash and the common
/// control characters are escaped, everything else stands as itself.
pub open spec fn esc_char(c: char) -> Seq<char> {
    if c == '"' {
        seq!['\\', '"']
    } else if c == '\\' {
        seq!['\\', '\\']
    } else if c == '\n' {
        seq!['\\', 'n']
    } else if c == '\t' {
        seq!['\\', 't']
    } else if c == '\r' {
        seq!['\\', 'r']
    } else {
        seq![c]
    }
}

/// The TOML escape of a whole string body.
pub open spec fn esc_text(s: Seq<char>) -> Seq<char>
    decreases s.len(),
{
    if s.len() == 0 {
        Seq::empty()
    } else {
        esc_text(s.drop_last()) + esc_char(s.last())
    }
}

/// The TOML text of a value: `true`/`false`, decimal integers, quoted and
/// escaped strings, and single-line bracketed arrays.
pub open spec fn toml_text(v: ValModel) -> Seq<char>
    decreases v, 1int,
{
    match v {
        ValModel::Bool(b) => if b {
            "true"@
        } else {
            "false"@
        },
        ValModel::Int(i) => int_dec(i),
        ValModel::Str(s) => seq!['"'] + esc_text(s) + seq!['"'],
        ValModel::Array(es) => {
            proof {
                assert(decreases_to!(v => es));
            }
            seq!['['] + toml_list(es, 0) + seq![']']
        },
        ValModel::Other => Seq::empty(),
    }
}

/// The TOML texts of the array elements from position `i` on, joined by
/// `, `.
pub open spec fn toml_list(es: Seq<ValModel>, i: int) -> Seq<char>
    decreases es, 0int, es.len() - i,
{
    if i < 0 || i >= es.len() {
        Seq::empty()
    } else {
        proof {
            assert(decreases_to!(es => es[i]));
        }
        if i == es.len() - 1 {
            toml_text(es[i])
        } else {
            toml_text(es[i]) + ", "@ + toml_list(es, i + 1)
        }
    }
}

/// The joined texts of the first `i` array elements, each followed by `, `
/// except the last element of the whole array.
pub open spec fn toml_list_prefix(es: Seq<ValModel>, i: int) -> Seq<char>
    decreases i,
{
    if i <= 0 || i > es.len() {
        Seq::empty()
    } else if i == es.len() {
        toml_list_prefix(es, i - 1) + toml_text(es[i - 1])
    } else {
        toml_list_prefix(es, i - 1) + toml_text(es[i - 1]) + ", "@
    }
}

proof fn lemma_toml_list_prefix_step(es: Seq<ValModel>, i: int)
    requires
        0 <= i < es.len(),
    ensures
        i < es.len() - 1 ==> toml_list_prefix(es, i + 1) == toml_list_prefix(es, i) + toml_text(
            es[i],
        ) + ", "@,
        i == es.len() - 1 ==> toml_list_prefix(es, i + 1) == toml_list_prefix(es, i) + toml_text(
            es[i],
        ),
{
}

proof fn lemma_toml_list_prefix_full(es: Seq<ValModel>)
    ensures
        toml_list_prefix(es, es.len() as int) == toml_list(es, 0),
{
    lemma_toml_list_join(es, 0);
    assert(toml_list_prefix(es, 0) + toml_list(es, 0) =~= toml_list(es, 0));
}

proof fn lemma_toml_list_join(es: Seq<ValModel>, i: int)
    requires
        0 <= i <= es.len(),
    ensures
        toml_list_prefix(es, es.len() as int) == toml_list_prefix(es, i) + toml_list(es, i),
    decreases es.len() - i,
{
    if i == es.len() {
        assert(toml_list_prefix(es, i) + Seq::<char>::empty() =~= toml_list_prefix(es, i));
    } else if i == es.len() - 1 {
        lemma_toml_list_join(es, i + 1);
        assert(toml_list_prefix(es, i) + toml_list(es, i) =~= toml_list_prefix(es, i + 1)
            + toml_list(es, i + 1));
    } else {
        lemma_toml_list_join(es, i + 1);
        assert(toml_list_prefix(es, i) + (toml_text(es[i]) + ", "@ + toml_list(es, i + 1)) =~= (
        toml_list_prefix(es, i) + toml_text(es[i]) + ", "@) + toml_list(es, i + 1));
    }
}

/// Appends the escaped body of a string.
#[verifier::loop_isolation(false)]
pub fn escape_append(out: &mut String, s: &str)
    ensures
        final(out)@ == old(out)@ + esc_text(s@),
{
    let n: usize = s.unicode_len();
    let mut i: usize = 0;
    proof {
        assert(esc_text(s@.subrange(0, 0)) =~= Seq::<char>::empty());
        assert(old(out)@ + Seq::<char>::empty() =~= old(out)@);
    }
    while i < n
        invariant
            i <= n,
            n == s@.len(),
            out@ == old(out)@ + esc_text(s@.subrange(0, i as int)),
        decreases n - i,
    {
        let c = s.get_char(i);
        proof {
            assert(s@.subrange(0, i + 1).drop_last() =~= s@.subrange(0, i as int));
            assert(s@.subrange(0, i + 1).last() == s@[i as int]);
        }
        if c == '"' {
            out.append("\\\"");
            proof {
                reveal_strlit("\\\"");
            }
        } else if c == '\\' {
            out.append("\\\\");
            proof {
                reveal_strlit("\\\\");
            }
        } else if c == '\n' {
            out.append("\\n");
            proof {
                reveal_strlit("\\n");
            }
        } else if c == '\t' {
            out.append("\\t");
            proof {
                reveal_strlit("\\t");
            }
        } else if c == '\r' {
            out.append("\\r");
            proof {
                reveal_strlit("\\r");
            }
        } else {
            crate::text::push_char(out, c);
        }
        proof {
            assert(out@ =~= old(out)@ + esc_text(s@.subrange(0, i + 1)));
        }
        i = i + 1;
    }
    proof {
        assert(s@.subrange(0, n as int) =~= s@);
    }
}

/// Renders a raw value as TOML text.
#[verifier::loop_isolation(false)]
pub fn raw_to_toml(v: &RawValue) -> (r: String)
    ensures
        r@ == toml_text(v@),
    decreases *v,
{
    match v {
        RawValue::Bool(b) => {
            if *b {
                crate::ty::lit_string("true")
            } else {
                crate::ty::lit_string("false")
            }
        },
        RawValue::Int(i) => crate::text::i64_to_dec(*i),
        RawValue::String(s) => {
            let mut out = String::new();
            crate::text::push_char(&mut out, '"');
            proof {
                assert(out@ =~= seq!['"']);
            }
            escape_append(&mut out, s.as_str());
            crate::text::push_char(&mut out, '"');
            proof {
                assert(out@ =~= seq!['"'] + esc_text(s@) + seq!['"']);
            }
            out
        },
        RawValue::Array(es) => {
            proof {
                lemma_val_model_seq(es@);
            }
            let mut out = String::new();
            crate::text::push_char(&mut out, '[');
            proof {
                assert(out@ =~= seq!['['] + toml_list_prefix(v@->Array_0, 0));
            }
            let mut i: usize = 0;
            while i < es.len()
                invariant
                    i <= es@.len(),
                    out@ == seq!['['] + toml_list_prefix(v@->Array_0, i as int),
                decreases es@.len() - i,
            {
                proof {
                    assert(decreases_to!(*v => *es));
                    assert(decreases_to!(*es => es@));
                    assert(decreases_to!(es@ => es@[i as int]));
                }
                let part = raw_to_toml(&es[i]);
                out = out.concat(part.as_str());
                if i + 1 < es.len() {
                    out = out.concat(", ");
                }
                proof {
                    lemma_toml_list_prefix_step(v@->Array_0, i as int);
                    assert(out@ =~= seq!['['] + toml_list_prefix(v@->Array_0, i + 1));
                }
                i = i + 1;
            }
            proof {
                lemma_toml_list_prefix_full(v@->Array_0);
            }
            crate::text::push_char(&mut out, ']');
            proof {
                assert(out@ =~= toml_text(v@));
            }
            out
        },
        RawValue::Other => String::new(),
    }
}

impl ConfigValue {
    /// Renders the held value as TOML text.
    pub fn to_toml(&self) -> (r: String)
        ensures
            r@ == toml_text(self@.value),
    {
        raw_to_toml(&self.value)
    }
}

} // verus!
