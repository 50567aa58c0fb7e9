//! The type grammar: the closed type language of configuration values, its
//! text parser, and its renderers.
//!
//! A type expression is, after removal of spaces: `bool`, `int`, `uint` or
//! `str`; `(T1,T2,...)` for a tuple (`()` is the empty tuple); or `[T]` for an
//! array.  The parser is specified by [`parse_ty`], a recursive descent over
//! the character sequence that pins down exactly which strings are accepted
//! and which type each accepted string denotes.
use vstd::prelude::*;

use crate::{ConfigErr, ConfigResult};

verus! {

broadcast use
    vstd::std_specs::vec::group_vec_axioms,
    vstd::seq::group_seq_axioms,
    vstd::string::group_string_axioms;

/// The mathematical model of a configuration type: a finite tree.
#[verifier::ext_equal]
pub enum TyModel {
    Bool,
    Int,
    Uint,
    Str,
    Tuple(Seq<TyModel>),
    Array(Box<TyModel>),
    Unknown,
}

/// A configuration value type.
#[derive(Debug, PartialEq, Eq)]
pub enum ConfigType {
    /// Boolean type.
    Bool,
    /// Signed integer type.
    Int,
    /// Unsigned integer type.
    Uint,
    /// String type.
    String,
    /// Tuple type: a fixed-length heterogeneous sequence.
    Tuple(Vec<ConfigType>),
    /// Array type: any length, one element type.
    Array(Box<ConfigType>),
    /// Type is unknown (inference on an empty array); never produced by parsing.
    Unknown,
}

/// The model of a [`ConfigType`] value.
pub open spec fn ty_model(t: ConfigType) -> TyModel
    decreases t, 1int,
{
    match t {
        ConfigType::Bool => TyModel::Bool,
        ConfigType::Int => TyModel::Int,
        ConfigType::Uint => TyModel::Uint,
        ConfigType::String => TyModel::Str,
        ConfigType::Tuple(ts) => {
            proof {
                assert(decreases_to!(t => ts));
                assert(decreases_to!(ts => ts@));
            }
            TyModel::Tuple(ty_model_seq(ts@))
        },
        ConfigType::Array(b) => TyModel::Array(Box::new(ty_model(*b))),
        ConfigType::Unknown => TyModel::Unknown,
    }
}

/// The models of a sequence of types.
pub open spec fn ty_model_seq(ts: Seq<ConfigType>) -> Seq<TyModel>
    decreases ts, 0int,
{
    if ts.len() == 0 {
        Seq::empty()
    } else {
        proof {
            assert(decreases_to!(ts => ts.subrange(0, ts.len() - 1)));
            assert(decreases_to!(ts => ts[ts.len() - 1]));
        }
        ty_model_seq(ts.subrange(0, ts.len() - 1)).push(ty_model(ts[ts.len() - 1]))
    }
}

/// `ty_model_seq` maps `ty_model` over the sequence.
pub proof fn lemma_ty_model_seq(ts: Seq<ConfigType>)
    ensures
        ty_model_seq(ts).len() == ts.len(),
        forall|i: int| 0 <= i < ts.len() ==> ty_model_seq(ts)[i] == ty_model(ts[i]),
    decreases ts.len(),
{
    if ts.len() > 0 {
        lemma_ty_model_seq(ts.subrange(0, ts.len() - 1));
        assert(forall|i: int|
            0 <= i < ts.len() - 1 ==> ts.subrange(0, ts.len() - 1)[i] == #[trigger] ts[i]);
    }
}

impl View for ConfigType {
    type V = TyModel;

    open spec fn view(&self) -> TyModel {
        ty_model(*self)
    }
}

/// Whether a type is fully known: it holds no `Unknown` anywhere.
pub open spec fn ty_known(t: TyModel) -> bool
    decreases t,
{
    match t {
        TyModel::Tuple(ts) => forall|i: int| 0 <= i < ts.len() ==> ty_known(#[trigger] ts[i]),
        TyModel::Array(b) => ty_known(*b),
        TyModel::Unknown => false,
        _ => true,
    }
}

/// A type expression with its spaces removed.
pub open spec fn despace(s: Seq<char>) -> Seq<char> {
    s.filter(|c: char| c != ' ')
}

/// One step of splitting a tuple body at the commas that sit at parenthesis
/// depth zero.  `start` is where the current item began, `i` the scan
/// position, `level` the parenthesis depth, `acc` the items found so far.
/// `None` reports unbalanced parentheses or an empty item.
pub open spec fn split_rec(
    s: Seq<char>,
    start: int,
    i: int,
    level: int,
    acc: Seq<Seq<char>>,
) -> Option<Seq<Seq<char>>>
    decreases s.len() - i,
{
    if i >= s.len() {
        if level == 0 && start < s.len() {
            Some(acc.push(s.subrange(start, s.len() as int)))
        } else {
            None
        }
    } else {
        let c = s[i];
        if c == '(' {
            split_rec(s, start, i + 1, level + 1, acc)
        } else if c == ')' {
            if level == 0 {
                None
            } else {
                split_rec(s, start, i + 1, level - 1, acc)
            }
        } else if c == ',' && level == 0 {
            if start < i {
                split_rec(s, i + 1, i + 1, 0, acc.push(s.subrange(start, i)))
            } else {
                None
            }
        } else {
            split_rec(s, start, i + 1, level, acc)
        }
    }
}

/// The items of a tuple body, split at depth-zero commas.
pub open spec fn split_items(s: Seq<char>) -> Option<Seq<Seq<char>>> {
    split_rec(s, 0, 0, 0, Seq::empty())
}

/// Every item produced by the split is no longer than the split string.
pub proof fn lemma_split_rec_item_len(
    s: Seq<char>,
    start: int,
    i: int,
    level: int,
    acc: Seq<Seq<char>>,
)
    requires
        0 <= start <= i <= s.len(),
        forall|j: int| 0 <= j < acc.len() ==> (#[trigger] acc[j]).len() <= s.len(),
        split_rec(s, start, i, level, acc) is Some,
    ensures
        forall|j: int|
            0 <= j < split_rec(s, start, i, level, acc)->Some_0.len()
                ==> (#[trigger] split_rec(s, start, i, level, acc)->Some_0[j]).len() <= s.len(),
    decreases s.len() - i,
{
    if i >= s.len() {
    } else {
        let c = s[i];
        if c == '(' {
            lemma_split_rec_item_len(s, start, i + 1, level + 1, acc);
        } else if c == ')' {
            if level != 0 {
                lemma_split_rec_item_len(s, start, i + 1, level - 1, acc);
            }
        } else if c == ',' && level == 0 {
            if start < i {
                lemma_split_rec_item_len(s, i + 1, i + 1, 0, acc.push(s.subrange(start, i)));
            }
        } else {
            lemma_split_rec_item_len(s, start, i + 1, level, acc);
        }
    }
}

/// The parser of type expressions, over a character sequence already freed of
/// spaces.  `None` means the string belongs to no type.
pub open spec fn parse_ty(s: Seq<char>) -> Option<TyModel>
    decreases s.len(), 0int,
{
    if s == "bool"@ {
        Some(TyModel::Bool)
    } else if s == "int"@ {
        Some(TyModel::Int)
    } else if s == "uint"@ {
        Some(TyModel::Uint)
    } else if s == "str"@ {
        Some(TyModel::Str)
    } else if s.len() >= 2 && s[0] == '(' && s[s.len() - 1] == ')' {
        let inner = s.subrange(1, s.len() - 1);
        if inner.len() == 0 {
            Some(TyModel::Tuple(Seq::empty()))
        } else {
            match split_items(inner) {
                None => None,
                Some(parts) => match parse_ty_list(inner, parts, 0) {
                    None => None,
                    Some(ts) => Some(TyModel::Tuple(ts)),
                },
            }
        }
    } else if s.len() >= 2 && s[0] == '[' && s[s.len() - 1] == ']' {
        let inner = s.subrange(1, s.len() - 1);
        if inner.len() == 0 {
            None
        } else {
            match parse_ty(inner) {
                None => None,
                Some(t) => Some(TyModel::Array(Box::new(t))),
            }
        }
    } else {
        None
    }
}

/// Parses the items of a tuple body from position `i` on.  A split never
/// produces an item longer than the body it split, so the guard on the item
/// length changes nothing for the strings the parser actually meets.
pub open spec fn parse_ty_list(inner: Seq<char>, parts: Seq<Seq<char>>, i: int) -> Option<
    Seq<TyModel>,
>
    decreases inner.len(), parts.len() - i + 1,
{
    if i < 0 || i >= parts.len() {
        Some(Seq::empty())
    } else if parts[i].len() > inner.len() {
        None
    } else {
        match parse_ty(parts[i]) {
            None => None,
            Some(t) => match parse_ty_list(inner, parts, i + 1) {
                None => None,
                Some(rest) => Some(seq![t] + rest),
            },
        }
    }
}

/// What `parse_ty_list` yields: the pointwise parses of the items, or `None`
/// exactly when some item fails to parse.
pub proof fn lemma_parse_ty_list(inner: Seq<char>, parts: Seq<Seq<char>>, i: int)
    requires
        0 <= i <= parts.len(),
        forall|k: int| 0 <= k < parts.len() ==> (#[trigger] parts[k]).len() <= inner.len(),
    ensures
        parse_ty_list(inner, parts, i) is Some <==> (forall|k: int|
            i <= k < parts.len() ==> (#[trigger] parse_ty(parts[k])) is Some),
        parse_ty_list(inner, parts, i) matches Some(r) ==> r.len() == parts.len() - i && (forall|
            k: int,
        |
            i <= k < parts.len() ==> r[k - i] == (#[trigger] parse_ty(parts[k]))->Some_0),
    decreases parts.len() - i,
{
    if i < parts.len() {
        lemma_parse_ty_list(inner, parts, i + 1);
        if parse_ty(parts[i]) is Some && parse_ty_list(inner, parts, i + 1) is Some {
            let t = parse_ty(parts[i])->Some_0;
            let rest = parse_ty_list(inner, parts, i + 1)->Some_0;
            assert(parse_ty_list(inner, parts, i) == Some(seq![t] + rest));
            assert forall|k: int| i <= k < parts.len() implies (seq![t] + rest)[k - i] == (
            #[trigger] parse_ty(parts[k]))->Some_0 by {
                if k == i {
                    assert((seq![t] + rest)[0] == t);
                } else {
                    assert((seq![t] + rest)[k - i] == rest[k - i - 1]);
                }
            }
        }
        if parse_ty_list(inner, parts, i) is Some {
            assert(parse_ty(parts[i]) is Some);
        }
        if (forall|k: int| i <= k < parts.len() ==> (#[trigger] parse_ty(parts[k])) is Some) {
            assert(parse_ty(parts[i]) is Some);
            assert(parse_ty_list(inner, parts, i + 1) is Some);
        }
    }
}

/// A parsed type is always fully known: the parser never produces
/// `Unknown`.
pub proof fn lemma_parse_ty_known(s: Seq<char>)
    ensures
        parse_ty(s) matches Some(t) ==> ty_known(t),
    decreases s.len(),
{
    if parse_ty(s) is Some {
        let t = parse_ty(s)->Some_0;
        if s == "bool"@ || s == "int"@ || s == "uint"@ || s == "str"@ {
        } else if s.len() >= 2 && s[0] == '(' && s[s.len() - 1] == ')' {
            let inner = s.subrange(1, s.len() - 1);
            if inner.len() != 0 {
                let parts = split_items(inner)->Some_0;
                lemma_split_rec_item_len(inner, 0, 0, 0, Seq::empty());
                lemma_parse_ty_list(inner, parts, 0);
                let ts = parse_ty_list(inner, parts, 0)->Some_0;
                assert forall|i: int| 0 <= i < ts.len() implies ty_known(#[trigger] ts[i]) by {
                    assert(parts[i].len() <= inner.len());
                    lemma_parse_ty_known(parts[i]);
                    assert(ts[i] == parse_ty(parts[i])->Some_0);
                }
            }
        } else if s.len() >= 2 && s[0] == '[' && s[s.len() - 1] == ']' {
            let inner = s.subrange(1, s.len() - 1);
            if inner.len() != 0 {
                lemma_parse_ty_known(inner);
            }
        }
    }
}

/// Removes the spaces of a string, keeping every other character.
pub fn despace_chars(s: &str) -> (r: Vec<char>)
    ensures
        r@ == despace(s@),
{
    let n: usize = s.unicode_len();
    let mut r: Vec<char> = Vec::new();
    let mut i: usize = 0;
    proof {
        assert(s@.subrange(0, 0) =~= Seq::<char>::empty());
        crate::text::lemma_filter_empty::<char>(|c: char| c != ' ');
    }
    while i < n
        invariant
            i <= n,
            n == s@.len(),
            r@ == despace(s@.subrange(0, i as int)),
        decreases n - i,
    {
        let c = s.get_char(i);
        proof {
            assert(s@.subrange(0, i + 1) =~= s@.subrange(0, i as int).push(s@[i as int]));
            crate::text::lemma_filter_push(
                s@.subrange(0, i as int),
                |c: char| c != ' ',
                s@[i as int],
            );
        }
        if c != ' ' {
            r.push(c);
        }
        i = i + 1;
    }
    proof {
        assert(s@.subrange(0, n as int) =~= s@);
    }
    r
}

/// Copies a contiguous region of a character vector.
pub fn subvec(s: &Vec<char>, from: usize, to: usize) -> (r: Vec<char>)
    requires
        from <= to <= s@.len(),
    ensures
        r@ == s@.subrange(from as int, to as int),
{
    let mut r: Vec<char> = Vec::new();
    let mut i: usize = from;
    while i < to
        invariant
            from <= i <= to <= s@.len(),
            r@ =~= s@.subrange(from as int, i as int),
        decreases to - i,
    {
        r.push(s[i]);
        assert(r@ =~= s@.subrange(from as int, i + 1));
        i = i + 1;
    }
    r
}

/// Tests whether a character vector spells a given string.
pub fn chars_eq_str(s: &Vec<char>, t: &str) -> (r: bool)
    ensures
        r == (s@ == t@),
{
    let n: usize = t.unicode_len();
    if s.len() != n {
        proof {
            assert(s@ != t@);
        }
        return false;
    }
    let mut i: usize = 0;
    while i < n
        invariant
            i <= n,
            n == t@.len(),
            n == s@.len(),
            forall|j: int| 0 <= j < i ==> s@[j] == t@[j],
        decreases n - i,
    {
        proof {
            vstd::utf8::char_u32_cast(s@[i as int], s@[i as int] as u32);
            vstd::utf8::char_u32_cast(t@[i as int], t@[i as int] as u32);
        }
        if s[i] as u32 != t.get_char(i) as u32 {
            return false;
        }
        i = i + 1;
    }
    proof {
        assert(s@ =~= t@);
    }
    true
}

/// Splits a tuple body at the commas that sit at parenthesis depth zero.
/// Fails on unbalanced parentheses, an empty item, or a trailing comma.
fn split_tuple_items(s: &Vec<char>) -> (r: Option<Vec<Vec<char>>>)
    ensures
        match r {
            Some(ps) => {
                &&& split_items(s@) == Some(Seq::new(ps@.len(), |j: int| ps@[j]@))
                &&& forall|j: int| 0 <= j < ps@.len() ==> (#[trigger] ps@[j]@).len() <= s@.len()
            },
            None => split_items(s@) is None,
        },
{
    let mut items: Vec<Vec<char>> = Vec::new();
    let mut start: usize = 0;
    let mut level: usize = 0;
    let mut i: usize = 0;
    proof {
        assert(Seq::new(items@.len(), |j: int| items@[j]@) =~= Seq::<Seq<char>>::empty());
    }
    while i < s.len()
        invariant
            start <= i <= s@.len(),
            level <= i,
            split_items(s@) == split_rec(
                s@,
                start as int,
                i as int,
                level as int,
                Seq::new(items@.len(), |j: int| items@[j]@),
            ),
            forall|j: int| 0 <= j < items@.len() ==> (#[trigger] items@[j]@).len() <= s@.len(),
        decreases s@.len() - i,
    {
        let c = s[i];
        if c == '(' {
            level = level + 1;
        } else if c == ')' {
            if level == 0 {
                return None;
            }
            level = level - 1;
        } else if c == ',' && level == 0 {
            if start < i {
                let ghost old_items = Seq::new(items@.len(), |j: int| items@[j]@);
                let part = subvec(s, start, i);
                items.push(part);
                proof {
                    assert(Seq::new(items@.len(), |j: int| items@[j]@) =~= old_items.push(
                        s@.subrange(start as int, i as int),
                    ));
                }
                start = i + 1;
            } else {
                return None;
            }
        }
        i = i + 1;
    }
    if level == 0 && start < s.len() {
        let ghost old_items = Seq::new(items@.len(), |j: int| items@[j]@);
        let part = subvec(s, start, s.len());
        items.push(part);
        proof {
            assert(Seq::new(items@.len(), |j: int| items@[j]@) =~= old_items.push(
                s@.subrange(start as int, s@.len() as int),
            ));
        }
        Some(items)
    } else {
        None
    }
}

impl ConfigType {
    /// Parses a type expression, ignoring spaces.  Returns `InvalidType` on
    /// any string that denotes no type.
    pub fn new(ty: &str) -> (r: ConfigResult<ConfigType>)
        ensures
            match r {
                Ok(t) => parse_ty(despace(ty@)) == Some(t@) && ty_known(t@),
                Err(e) => parse_ty(despace(ty@)) is None && e is InvalidType,
            },
    {
        let chars = despace_chars(ty);
        let r = Self::parse_chars(&chars);
        proof {
            lemma_parse_ty_known(despace(ty@));
        }
        r
    }

    /// Parses a space-free type expression held as a character vector.
    #[verifier::loop_isolation(false)]
    fn parse_chars(s: &Vec<char>) -> (r: ConfigResult<ConfigType>)
        ensures
            match r {
                Ok(t) => parse_ty(s@) == Some(t@),
                Err(e) => parse_ty(s@) is None && e is InvalidType,
            },
        decreases s@.len(),
    {
        if chars_eq_str(s, "bool") {
            return Ok(ConfigType::Bool);
        }
        if chars_eq_str(s, "int") {
            return Ok(ConfigType::Int);
        }
        if chars_eq_str(s, "uint") {
            return Ok(ConfigType::Uint);
        }
        if chars_eq_str(s, "str") {
            return Ok(ConfigType::String);
        }
        let n = s.len();
        if n >= 2 && s[0] == '(' && s[n - 1] == ')' {
            if n == 2 {
                let t = ConfigType::Tuple(Vec::new());
                proof {
                    assert(s@.subrange(1, s@.len() - 1) =~= Seq::<char>::empty());
                    assert(t->Tuple_0@.len() == 0);
                    assert(ty_model_seq(t->Tuple_0@) == Seq::<TyModel>::empty());
                    assert(t@ == TyModel::Tuple(Seq::<TyModel>::empty()));
                }
                return Ok(t);
            }
            let inner = subvec(s, 1, n - 1);
            match split_tuple_items(&inner) {
                None => Err(ConfigErr::InvalidType),
                Some(parts) => {
                    let ghost part_views = Seq::new(parts@.len(), |j: int| parts@[j]@);
                    proof {
                        lemma_parse_ty_list(inner@, part_views, 0);
                    }
                    let mut out: Vec<ConfigType> = Vec::new();
                    let mut j: usize = 0;
                    while j < parts.len()
                        invariant
                            j <= parts@.len(),
                            out@.len() == j,
                            forall|k: int|
                                0 <= k < j ==> parse_ty(#[trigger] part_views[k]) == Some(
                                    ty_model(out@[k]),
                                ),
                        decreases parts@.len() - j,
                    {
                        match Self::parse_chars(&parts[j]) {
                            Ok(t) => {
                                out.push(t);
                            },
                            Err(_) => {
                                proof {
                                    assert(parse_ty(part_views[j as int]) is None);
                                }
                                return Err(ConfigErr::InvalidType);
                            },
                        }
                        j = j + 1;
                    }
                    let t = ConfigType::Tuple(out);
                    proof {
                        let r = parse_ty_list(inner@, part_views, 0)->Some_0;
                        lemma_ty_model_seq(out@);
                        assert(parse_ty_list(inner@, part_views, 0) is Some);
                        assert(r.len() == part_views.len());
                        assert forall|k: int| 0 <= k < part_views.len() implies ty_model_seq(out@)[k]
                            == r[k] by {
                            assert(parse_ty(part_views[k]) == Some(ty_model(out@[k])));
                            assert(r[k] == parse_ty(part_views[k])->Some_0);
                        }
                        assert(ty_model_seq(out@) =~= r);
                        assert(t@ == TyModel::Tuple(r));
                    }
                    Ok(t)
                },
            }
        } else if n >= 2 && s[0] == '[' && s[n - 1] == ']' {
            if n == 2 {
                return Err(ConfigErr::InvalidType);
            }
            let inner = subvec(s, 1, n - 1);
            match Self::parse_chars(&inner) {
                Ok(t) => Ok(ConfigType::Array(Box::new(t))),
                Err(_) => Err(ConfigErr::InvalidType),
            }
        } else {
            Err(ConfigErr::InvalidType)
        }
    }
}

impl Clone for ConfigType {
    /// A deep copy with the same model.
    #[verifier::loop_isolation(false)]
    fn clone(&self) -> (res: Self)
        ensures
            res@ == self@,
        decreases *self,
    {
        match self {
            ConfigType::Bool => ConfigType::Bool,
            ConfigType::Int => ConfigType::Int,
            ConfigType::Uint => ConfigType::Uint,
            ConfigType::String => ConfigType::String,
            ConfigType::Tuple(ts) => {
                let mut out: Vec<ConfigType> = Vec::new();
                let mut i: usize = 0;
                while i < ts.len()
                    invariant
                        i <= ts@.len(),
                        out@.len() == i,
                        forall|k: int|
                            0 <= k < i ==> ty_model(#[trigger] out@[k]) == ty_model(ts@[k]),
                    decreases ts@.len() - i,
                {
                    proof {
                        assert(decreases_to!(*self => *ts));
                        assert(decreases_to!(*ts => ts@));
                        assert(decreases_to!(ts@ => ts@[i as int]));
                    }
                    out.push(ts[i].clone());
                    i = i + 1;
                }
                let r = ConfigType::Tuple(out);
                proof {
                    lemma_ty_model_seq(out@);
                    lemma_ty_model_seq(ts@);
                    assert(ty_model_seq(out@) =~= ty_model_seq(ts@));
                }
                r
            },
            ConfigType::Array(b) => ConfigType::Array(Box::new((**b).clone())),
            ConfigType::Unknown => ConfigType::Unknown,
        }
    }
}

/// Structural equality of two types.
#[verifier::loop_isolation(false)]
pub fn ty_eq(a: &ConfigType, b: &ConfigType) -> (r: bool)
    ensures
        r == (a@ == b@),
    decreases *a,
{
    match (a, b) {
        (ConfigType::Bool, ConfigType::Bool) => true,
        (ConfigType::Int, ConfigType::Int) => true,
        (ConfigType::Uint, ConfigType::Uint) => true,
        (ConfigType::String, ConfigType::String) => true,
        (ConfigType::Unknown, ConfigType::Unknown) => true,
        (ConfigType::Tuple(xs), ConfigType::Tuple(ys)) => {
            proof {
                lemma_ty_model_seq(xs@);
                lemma_ty_model_seq(ys@);
            }
            if xs.len() != ys.len() {
                proof {
                    assert(a@->Tuple_0.len() != b@->Tuple_0.len());
                }
                return false;
            }
            let mut i: usize = 0;
            while i < xs.len()
                invariant
                    i <= xs@.len(),
                    xs@.len() == ys@.len(),
                    forall|k: int| 0 <= k < i ==> ty_model(#[trigger] xs@[k]) == ty_model(ys@[k]),
                decreases xs@.len() - i,
            {
                proof {
                    assert(decreases_to!(*a => *xs));
                    assert(decreases_to!(*xs => xs@));
                    assert(decreases_to!(xs@ => xs@[i as int]));
                }
                if !ty_eq(&xs[i], &ys[i]) {
                    proof {
                        assert(a@->Tuple_0[i as int] != b@->Tuple_0[i as int]);
                    }
                    return false;
                }
                i = i + 1;
            }
            proof {
                assert(ty_model_seq(xs@) =~= ty_model_seq(ys@));
            }
            true
        },
        (ConfigType::Array(x), ConfigType::Array(y)) => {
            let r = ty_eq(x, y);
            r
        },
        _ => {
            proof {
                assert(a@ != b@);
            }
            false
        },
    }
}

/// The canonical text of a type, as written in a configuration annotation.
pub open spec fn ty_text(t: TyModel) -> Seq<char>
    decreases t, 1int,
{
    match t {
        TyModel::Bool => "bool"@,
        TyModel::Int => "int"@,
        TyModel::Uint => "uint"@,
        TyModel::Str => "str"@,
        TyModel::Tuple(ts) => {
            proof {
                assert(decreases_to!(t => ts));
            }
            "("@ + ty_text_list(ts, 0) + ")"@
        },
        TyModel::Array(b) => "["@ + ty_text(*b) + "]"@,
        TyModel::Unknown => "?"@,
    }
}

/// The texts of the members of a tuple from position `i` on, joined by `, `.
pub open spec fn ty_text_list(ts: Seq<TyModel>, i: int) -> Seq<char>
    decreases ts, 0int, ts.len() - i,
{
    if i < 0 || i >= ts.len() {
        Seq::empty()
    } else {
        proof {
            assert(decreases_to!(ts => ts[i]));
        }
        if i == ts.len() - 1 {
            ty_text(ts[i])
        } else {
            ty_text(ts[i]) + ", "@ + ty_text_list(ts, i + 1)
        }
    }
}

/// The Rust rendering of a type, as used in generated constant declarations.
pub open spec fn rust_ty_text(t: TyModel) -> Seq<char>
    decreases t, 1int,
{
    match t {
        TyModel::Bool => "bool"@,
        TyModel::Int => "isize"@,
        TyModel::Uint => "usize"@,
        TyModel::Str => "&str"@,
        TyModel::Tuple(ts) => {
            proof {
                assert(decreases_to!(t => ts));
            }
            "("@ + rust_ty_list(ts, 0) + ")"@
        },
        TyModel::Array(b) => "&["@ + rust_ty_text(*b) + "]"@,
        TyModel::Unknown => Seq::empty(),
    }
}

/// The Rust texts of tuple members from position `i` on, joined by `, `.
pub open spec fn rust_ty_list(ts: Seq<TyModel>, i: int) -> Seq<char>
    decreases ts, 0int, ts.len() - i,
{
    if i < 0 || i >= ts.len() {
        Seq::empty()
    } else {
        proof {
            assert(decreases_to!(ts => ts[i]));
        }
        if i == ts.len() - 1 {
            rust_ty_text(ts[i])
        } else {
            rust_ty_text(ts[i]) + ", "@ + rust_ty_list(ts, i + 1)
        }
    }
}

impl ConfigType {
    /// Renders the type in annotation form (`(uint, str)`, `[bool]`, ...).
    #[verifier::loop_isolation(false)]
    pub fn to_annot_string(&self) -> (r: String)
        ensures
            r@ == ty_text(self@),
        decreases *self, 1int,
    {
        match self {
            ConfigType::Bool => lit_string("bool"),
            ConfigType::Int => lit_string("int"),
            ConfigType::Uint => lit_string("uint"),
            ConfigType::String => lit_string("str"),
            ConfigType::Tuple(ts) => {
                proof {
                    lemma_ty_model_seq(ts@);
                }
                let mut r = lit_string("(");
                let mut i: usize = 0;
                while i < ts.len()
                    invariant
                        i <= ts@.len(),
                        r@ == "("@ + ty_list_prefix(self@->Tuple_0, i as int),
                    decreases ts@.len() - i,
                {
                    proof {
                        assert(decreases_to!(*self => *ts));
                        assert(decreases_to!(*ts => ts@));
                        assert(decreases_to!(ts@ => ts@[i as int]));
                    }
                    let part = ts[i].to_annot_string();
                    r = r.concat(part.as_str());
                    if i + 1 < ts.len() {
                        r = r.concat(", ");
                    }
                    proof {
                        lemma_ty_list_prefix_step(self@->Tuple_0, i as int);
                        assert(r@ =~= "("@ + ty_list_prefix(self@->Tuple_0, i + 1));
                    }
                    i = i + 1;
                }
                proof {
                    lemma_ty_list_prefix_full(self@->Tuple_0);
                }
                let done = r.concat(")");
                proof {
                    assert(done@ =~= ty_text(self@));
                }
                done
            },
            ConfigType::Array(b) => {
                let inner = (**b).to_annot_string();
                let r = lit_string("[").concat(inner.as_str()).concat("]");
                proof {
                    assert(r@ =~= ty_text(self@));
                }
                r
            },
            ConfigType::Unknown => lit_string("?"),
        }
    }

    /// Renders the type as Rust source text.  `Unknown` cannot be rendered
    /// and must be ruled out by the caller.
    #[verifier::loop_isolation(false)]
    pub fn to_rust_type(&self) -> (r: String)
        requires
            ty_known(self@),
        ensures
            r@ == rust_ty_text(self@),
        decreases *self, 1int,
    {
        match self {
            ConfigType::Bool => lit_string("bool"),
            ConfigType::Int => lit_string("isize"),
            ConfigType::Uint => lit_string("usize"),
            ConfigType::String => lit_string("&str"),
            ConfigType::Tuple(ts) => {
                proof {
                    lemma_ty_model_seq(ts@);
                }
                let mut r = lit_string("(");
                let mut i: usize = 0;
                while i < ts.len()
                    invariant
                        i <= ts@.len(),
                        r@ == "("@ + rust_list_prefix(self@->Tuple_0, i as int),
                    decreases ts@.len() - i,
                {
                    proof {
                        assert(decreases_to!(*self => *ts));
                        assert(decreases_to!(*ts => ts@));
                        assert(decreases_to!(ts@ => ts@[i as int]));
                        assert(ty_known(self@->Tuple_0[i as int]));
                    }
                    let part = ts[i].to_rust_type();
                    r = r.concat(part.as_str());
                    if i + 1 < ts.len() {
                        r = r.concat(", ");
                    }
                    proof {
                        lemma_rust_list_prefix_step(self@->Tuple_0, i as int);
                        assert(r@ =~= "("@ + rust_list_prefix(self@->Tuple_0, i + 1));
                    }
                    i = i + 1;
                }
                proof {
                    lemma_rust_list_prefix_full(self@->Tuple_0);
                }
                let done = r.concat(")");
                proof {
                    assert(done@ =~= rust_ty_text(self@));
                }
                done
            },
            ConfigType::Array(b) => {
                let inner = (**b).to_rust_type();
                let r = lit_string("&[").concat(inner.as_str()).concat("]");
                proof {
                    assert(r@ =~= rust_ty_text(self@));
                }
                r
            },
            ConfigType::Unknown => lit_string(""),
        }
    }
}

/// The joined texts of the first `i` tuple members, each followed by `, `
/// except the last member of the whole tuple.
pub open spec fn ty_list_prefix(ts: Seq<TyModel>, i: int) -> Seq<char>
    decreases i,
{
    if i <= 0 || i > ts.len() {
        Seq::empty()
    } else if i == ts.len() {
        ty_list_prefix(ts, i - 1) + ty_text(ts[i - 1])
    } else {
        ty_list_prefix(ts, i - 1) + ty_text(ts[i - 1]) + ", "@
    }
}

proof fn lemma_ty_list_prefix_step(ts: Seq<TyModel>, i: int)
    requires
        0 <= i < ts.len(),
    ensures
        i < ts.len() - 1 ==> ty_list_prefix(ts, i + 1) == ty_list_prefix(ts, i) + ty_text(ts[i])
            + ", "@,
        i == ts.len() - 1 ==> ty_list_prefix(ts, i + 1) == ty_list_prefix(ts, i) + ty_text(ts[i]),
{
}

proof fn lemma_ty_list_prefix_full(ts: Seq<TyModel>)
    ensures
        ty_list_prefix(ts, ts.len() as int) == ty_text_list(ts, 0),
{
    lemma_ty_list_join(ts, 0);
    assert(ty_list_prefix(ts, 0) + ty_text_list(ts, 0) =~= ty_text_list(ts, 0));
}

proof fn lemma_ty_list_join(ts: Seq<TyModel>, i: int)
    requires
        0 <= i <= ts.len(),
    ensures
        ty_list_prefix(ts, ts.len() as int) == ty_list_prefix(ts, i) + ty_text_list(ts, i),
    decreases ts.len() - i,
{
    if i == ts.len() {
        assert(ty_list_prefix(ts, i) + Seq::<char>::empty() =~= ty_list_prefix(ts, i));
    } else if i == ts.len() - 1 {
        lemma_ty_list_join(ts, i + 1);
        assert(ty_list_prefix(ts, i) + ty_text_list(ts, i) =~= ty_list_prefix(ts, i + 1)
            + ty_text_list(ts, i + 1));
    } else {
        lemma_ty_list_join(ts, i + 1);
        assert(ty_list_prefix(ts, i) + (ty_text(ts[i]) + ", "@ + ty_text_list(ts, i + 1)) =~= (
        ty_list_prefix(ts, i) + ty_text(ts[i]) + ", "@) + ty_text_list(ts, i + 1));
    }
}

/// As [`ty_list_prefix`], for the Rust rendering.
pub open spec fn rust_list_prefix(ts: Seq<TyModel>, i: int) -> Seq<char>
    decreases i,
{
    if i <= 0 || i > ts.len() {
        Seq::empty()
    } else if i == ts.len() {
        rust_list_prefix(ts, i - 1) + rust_ty_text(ts[i - 1])
    } else {
        rust_list_prefix(ts, i - 1) + rust_ty_text(ts[i - 1]) + ", "@
    }
}

proof fn lemma_rust_list_prefix_step(ts: Seq<TyModel>, i: int)
    requires
        0 <= i < ts.len(),
    ensures
        i < ts.len() - 1 ==> rust_list_prefix(ts, i + 1) == rust_list_prefix(ts, i)
            + rust_ty_text(ts[i]) + ", "@,
        i == ts.len() - 1 ==> rust_list_prefix(ts, i + 1) == rust_list_prefix(ts, i)
            + rust_ty_text(ts[i]),
{
}

proof fn lemma_rust_list_prefix_full(ts: Seq<TyModel>)
    ensures
        rust_list_prefix(ts, ts.len() as int) == rust_ty_list(ts, 0),
{
    lemma_rust_list_join(ts, 0);
    assert(rust_list_prefix(ts, 0) + rust_ty_list(ts, 0) =~= rust_ty_list(ts, 0));
}

proof fn lemma_rust_list_join(ts: Seq<TyModel>, i: int)
    requires
        0 <= i <= ts.len(),
    ensures
        rust_list_prefix(ts, ts.len() as int) == rust_list_prefix(ts, i) + rust_ty_list(ts, i),
    decreases ts.len() - i,
{
    if i == ts.len() {
        assert(rust_list_prefix(ts, i) + Seq::<char>::empty() =~= rust_list_prefix(ts, i));
    } else if i == ts.len() - 1 {
        lemma_rust_list_join(ts, i + 1);
        assert(rust_list_prefix(ts, i) + rust_ty_list(ts, i) =~= rust_list_prefix(ts, i + 1)
            + rust_ty_list(ts, i + 1));
    } else {
        lemma_rust_list_join(ts, i + 1);
        assert(rust_list_prefix(ts, i) + (rust_ty_text(ts[i]) + ", "@ + rust_ty_list(ts, i + 1))
            =~= (rust_list_prefix(ts, i) + rust_ty_text(ts[i]) + ", "@) + rust_ty_list(ts, i + 1));
    }
}

/// A fresh `String` holding the given literal text.
pub fn lit_string(s: &str) -> (r: String)
    ensures
        r@ == s@,
{
    String::from_str(s)
}

} // verus!
