//! The node type of the pipeline description language.
//!
//! A pipeline is a sequence of nodes; a node has a name, a property map
//! from keys to lists of string values, and child pipelines.  The getters
//! here are what the composer reads its configuration through; each one
//! says exactly on which maps it succeeds and what it hands back.

use vstd::prelude::*;
use vstd::string::StringExecFns;
use vstd::string::StrSliceExecFns;
use crate::error::{config_field_error, Error};

verus! {

/// One node of a pipeline description.
#[derive(Debug, PartialEq)]
pub struct VDLNode {
    pub name: String,
    pub properties: Vec<(String, Vec<String>)>,
    pub children: Vec<VDLPipeline>,
}

/// An ordered chain of nodes.
#[derive(Debug, PartialEq)]
pub struct VDLPipeline {
    pub nodes: Vec<VDLNode>,
}

/// The property list as a mathematical association list.
pub open spec fn spec_props_view(props: Seq<(String, Vec<String>)>) -> Seq<
    (Seq<char>, Seq<Seq<char>>),
> {
    Seq::new(props.len(), |i: int| (props[i].0@, props[i].1.deep_view()))
}

/// No two entries of the property list share a key.
pub open spec fn spec_keys_unique(props: Seq<(Seq<char>, Seq<Seq<char>>)>) -> bool {
    forall|i: int, j: int| 0 <= i < j < props.len() ==> (#[trigger] props[i]).0 != (#[trigger] props[j]).0
}

/// The value of the last pair carrying `key`, if any pair does.
pub open spec fn spec_last_value(pairs: Seq<(Seq<char>, Seq<char>)>, key: Seq<char>) -> Option<
    Seq<char>,
>
    decreases pairs.len(),
{
    if pairs.len() == 0 {
        None
    } else if pairs.last().0 == key {
        Some(pairs.last().1)
    } else {
        spec_last_value(pairs.drop_last(), key)
    }
}

/// The views of a list of key-value string pairs.
pub open spec fn spec_pair_views(pairs: Seq<(&str, &str)>) -> Seq<(Seq<char>, Seq<char>)> {
    Seq::new(pairs.len(), |i: int| (pairs[i].0@, pairs[i].1@))
}

/// First-match lookup in the property list, by key.
pub open spec fn spec_prop_lookup(
    props: Seq<(Seq<char>, Seq<Seq<char>>)>,
    field: Seq<char>,
) -> Option<Seq<Seq<char>>>
    decreases props.len(),
{
    if props.len() == 0 {
        None
    } else if props[0].0 == field {
        Some(props[0].1)
    } else {
        spec_prop_lookup(props.skip(1), field)
    }
}

/// A space, tab, carriage return or line feed.
pub open spec fn spec_is_space(c: char) -> bool {
    c == ' ' || c == '\t' || c == '\n' || c == '\r'
}

/// The first index at or after `i` holding a non-space, or the length.
pub open spec fn spec_skip_spaces(s: Seq<char>, i: int) -> int
    decreases s.len() - i,
{
    if i < 0 || i >= s.len() {
        s.len() as int
    } else if spec_is_space(s[i]) {
        spec_skip_spaces(s, i + 1)
    } else {
        i
    }
}

/// The end of the last non-space run before `j`, or zero.
pub open spec fn spec_rskip_spaces(s: Seq<char>, j: int) -> int
    decreases j,
{
    if j <= 0 || j > s.len() {
        0
    } else if spec_is_space(s[j - 1]) {
        spec_rskip_spaces(s, j - 1)
    } else {
        j
    }
}

/// The value with its leading and trailing spaces removed.
pub open spec fn spec_trim(s: Seq<char>) -> Seq<char> {
    let a = spec_skip_spaces(s, 0);
    let b = spec_rskip_spaces(s, s.len() as int);
    if a <= b {
        s.subrange(a, b)
    } else {
        Seq::empty()
    }
}

/// ASCII lower-casing of one character.
pub open spec fn spec_lower_char(c: char) -> char {
    if 'A' <= c <= 'Z' {
        (((c as u8) + 32) as char)
    } else {
        c
    }
}

/// ASCII lower-casing of a value.
pub open spec fn spec_lower(s: Seq<char>) -> Seq<char> {
    Seq::new(s.len(), |i: int| spec_lower_char(s[i]))
}

/// A property value counts as true when, trimmed and lower-cased, it is
/// one of `1`, `true`, `yes`, `ok`.
pub open spec fn spec_truthy(s: Seq<char>) -> bool {
    ||| spec_lower(spec_trim(s)) == "1"@
    ||| spec_lower(spec_trim(s)) == "true"@
    ||| spec_lower(spec_trim(s)) == "yes"@
    ||| spec_lower(spec_trim(s)) == "ok"@
}

/// The value of a decimal digit string.
pub open spec fn spec_dec_val(s: Seq<char>) -> nat
    decreases s.len(),
{
    if s.len() == 0 {
        0
    } else {
        (spec_dec_val(s.drop_last()) * 10 + (if '0' <= s.last() <= '9' {
            s.last() as int - '0' as int
        } else {
            0
        })) as nat
    }
}

/// Every character is a decimal digit.
pub open spec fn spec_all_digits(s: Seq<char>) -> bool {
    forall|i: int| 0 <= i < s.len() ==> '0' <= #[trigger] s[i] <= '9'
}

/// What parsing a value as an unsigned 64-bit decimal number yields.
pub open spec fn spec_parse_u64(s: Seq<char>) -> Option<u64> {
    if s.len() > 0 && spec_all_digits(s) && spec_dec_val(s) <= u64::MAX {
        Some(spec_dec_val(s) as u64)
    } else {
        None
    }
}

/// Growing a digit string never shrinks its value.
proof fn lemma_dec_val_prefix(s: Seq<char>, i: int)
    requires
        0 <= i <= s.len(),
    ensures
        spec_dec_val(s.take(i)) <= spec_dec_val(s),
    decreases s.len() - i,
{
    if i < s.len() {
        lemma_dec_val_prefix(s, i + 1);
        assert(s.take(i + 1).drop_last() =~= s.take(i));
        assert(spec_dec_val(s.take(i)) <= spec_dec_val(s.take(i + 1)));
    } else {
        assert(s.take(i) =~= s);
    }
}

impl VDLNode {
    /// The property map as a mathematical association list.
    pub open spec fn spec_props(&self) -> Seq<(Seq<char>, Seq<Seq<char>>)> {
        spec_props_view(self.properties@)
    }

    /// The values of `field`, first match.
    pub open spec fn spec_get(&self, field: Seq<char>) -> Option<Seq<Seq<char>>> {
        spec_prop_lookup(self.spec_props(), field)
    }

    /// A node with the given name, no properties and no children.
    pub fn new(name: &str) -> (r: VDLNode)
        ensures
            r.name@ == name@,
            r.properties@.len() == 0,
            r.children@.len() == 0,
    {
        VDLNode { name: name.to_owned(), properties: Vec::new(), children: Vec::new() }
    }

    /// Finds the values stored under `field`, cloned out of the node.
    fn find_values(&self, field: &str) -> (r: Option<Vec<String>>)
        ensures
            match r {
                Some(v) => self.spec_get(field@) == Some(v.deep_view()),
                None => self.spec_get(field@) is None,
            },
    {
        let key = field.to_owned();
        let ghost props = self.spec_props();
        let mut i: usize = 0;
        proof {
            assert(props.skip(0) =~= props);
        }
        while i < self.properties.len()
            invariant
                i <= self.properties@.len(),
                props == self.spec_props(),
                key@ == field@,
                spec_prop_lookup(props.skip(i as int), field@) == spec_prop_lookup(props, field@),
            decreases self.properties@.len() - i,
        {
            proof {
                assert(props.skip(i as int)[0] == props[i as int]);
            }
            if self.properties[i].0.eq(&key) {
                let values = clone_string_vec(&self.properties[i].1);
                return Some(values);
            }
            proof {
                assert(props.skip(i as int).skip(1) =~= props.skip(i as int + 1));
            }
            i = i + 1;
        }
        proof {
            assert(props.skip(self.properties@.len() as int) =~= Seq::<
                (Seq<char>, Seq<Seq<char>>),
            >::empty());
        }
        None
    }

    /// The list of values under `field`, which must have at least
    /// `min_size` entries; a missing field stands for the empty list.
    pub fn get_property_vec(&self, field: &str, min_size: usize) -> (r: Result<Vec<String>, Error>)
        ensures
            match r {
                Ok(v) => match self.spec_get(field@) {
                    Some(vs) => v.deep_view() == vs && vs.len() >= min_size,
                    None => v.deep_view() == Seq::<Seq<char>>::empty() && min_size == 0,
                },
                Err(e) => e is Config && match self.spec_get(field@) {
                    Some(vs) => vs.len() < min_size,
                    None => min_size > 0,
                },
            },
    {
        match self.find_values(field) {
            Some(v) => {
                if v.len() >= min_size {
                    Ok(v)
                } else {
                    Err(config_field_error("field '", field, "' has too few entries"))
                }
            },
            None => {
                if min_size == 0 {
                    let empty: Vec<String> = Vec::new();
                    proof {
                        assert(empty.deep_view() =~= Seq::<Seq<char>>::empty());
                    }
                    Ok(empty)
                } else {
                    Err(config_field_error("field '", field, "' not found"))
                }
            },
        }
    }

    /// The single value under `field`, if the field is present; a field
    /// with any other number of entries is a configuration error.
    pub fn get_property0(&self, field: &str) -> (r: Result<Option<String>, Error>)
        ensures
            match r {
                Ok(v) => match self.spec_get(field@) {
                    Some(vs) => vs.len() == 1 && v is Some && v->0@ == vs[0],
                    None => v is None,
                },
                Err(e) => e is Config && match self.spec_get(field@) {
                    Some(vs) => vs.len() != 1,
                    None => false,
                },
            },
    {
        match self.find_values(field) {
            Some(mut v) => {
                if v.len() == 1 {
                    let s = v.pop().unwrap();
                    proof {
                        assert(s@ == self.spec_get(field@)->Some_0[0]);
                    }
                    Ok(Some(s))
                } else {
                    Err(config_field_error("field '", field, "' must have exactly one entry"))
                }
            },
            None => Ok(None),
        }
    }

    /// The single value under `field`; a missing field is a configuration
    /// error whose message names it.
    pub fn get_property1(&self, field: &str) -> (r: Result<String, Error>)
        ensures
            match r {
                Ok(v) => self.spec_get(field@) is Some && self.spec_get(field@)->Some_0.len() == 1
                    && v@ == self.spec_get(field@)->Some_0[0],
                Err(e) => e is Config && match self.spec_get(field@) {
                    Some(vs) => vs.len() != 1,
                    None => e.spec_message() == "field '"@ + field@ + "' does not exist"@,
                },
            },
    {
        match self.get_property0(field) {
            Ok(Some(v)) => Ok(v),
            Ok(None) => Err(config_field_error("field '", field, "' does not exist")),
            Err(e) => Err(e),
        }
    }

    /// The single value under `field` as an owned string, if present.
    pub fn get_property_string0(&self, field: &str) -> (r: Result<Option<String>, Error>)
        ensures
            match r {
                Ok(v) => match self.spec_get(field@) {
                    Some(vs) => vs.len() == 1 && v is Some && v->0@ == vs[0],
                    None => v is None,
                },
                Err(e) => e is Config && match self.spec_get(field@) {
                    Some(vs) => vs.len() != 1,
                    None => false,
                },
            },
    {
        self.get_property0(field)
    }

    /// The single value under `field` as an owned string; a missing field
    /// is a configuration error whose message names it.
    pub fn get_property_string1(&self, field: &str) -> (r: Result<String, Error>)
        ensures
            match r {
                Ok(v) => self.spec_get(field@) is Some && self.spec_get(field@)->Some_0.len() == 1
                    && v@ == self.spec_get(field@)->Some_0[0],
                Err(e) => e is Config && match self.spec_get(field@) {
                    Some(vs) => vs.len() != 1,
                    None => e.spec_message() == "field '"@ + field@ + "' does not exist"@,
                },
            },
    {
        self.get_property1(field)
    }

    /// Whether the single value under `field`, trimmed and lower-cased,
    /// is one of `1`, `true`, `yes`, `ok`; a missing field is false.
    pub fn get_property_bool(&self, field: &str) -> (r: Result<bool, Error>)
        ensures
            match r {
                Ok(v) => match self.spec_get(field@) {
                    Some(vs) => vs.len() == 1 && v == spec_truthy(vs[0]),
                    None => v == false,
                },
                Err(e) => e is Config && match self.spec_get(field@) {
                    Some(vs) => vs.len() != 1,
                    None => false,
                },
            },
    {
        match self.get_property0(field) {
            Ok(Some(v)) => Ok(string_is_truthy(&v)),
            Ok(None) => Ok(false),
            Err(e) => Err(e),
        }
    }

    /// The single value under `field` parsed as an unsigned decimal
    /// number, if the field is present; a value that is not such a number
    /// is a configuration error.
    pub fn get_property_number0(&self, field: &str) -> (r: Result<Option<u64>, Error>)
        ensures
            match r {
                Ok(v) => match self.spec_get(field@) {
                    Some(vs) => vs.len() == 1 && v is Some && spec_parse_u64(vs[0]) == Some(
                        v->0,
                    ),
                    None => v is None,
                },
                Err(e) => e is Config && match self.spec_get(field@) {
                    Some(vs) => vs.len() != 1 || spec_parse_u64(vs[0]) is None,
                    None => false,
                },
            },
    {
        match self.get_property0(field) {
            Ok(Some(v)) => match parse_u64(&v) {
                Some(n) => Ok(Some(n)),
                None => Err(config_field_error("field '", field, "' is not a number")),
            },
            Ok(None) => Ok(None),
            Err(e) => Err(e),
        }
    }
}

/// With unique keys, lookup returns the one entry carrying the key.
pub proof fn lemma_lookup_unique(props: Seq<(Seq<char>, Seq<Seq<char>>)>, key: Seq<char>, j: int)
    requires
        spec_keys_unique(props),
        0 <= j < props.len(),
        props[j].0 == key,
    ensures
        spec_prop_lookup(props, key) == Some(props[j].1),
    decreases props.len(),
{
    if j == 0 {
    } else {
        assert(props[0].0 != key);
        assert(props.skip(1)[j - 1] == props[j]);
        assert forall|i1: int, i2: int|
            0 <= i1 < i2 < props.skip(1).len() implies (#[trigger] props.skip(1)[i1]).0 != (
        #[trigger] props.skip(1)[i2]).0 by {
            assert(props.skip(1)[i1] == props[i1 + 1]);
            assert(props.skip(1)[i2] == props[i2 + 1]);
        }
        lemma_lookup_unique(props.skip(1), key, j - 1);
    }
}

/// Lookup of a key no entry carries fails.
pub proof fn lemma_lookup_absent(props: Seq<(Seq<char>, Seq<Seq<char>>)>, key: Seq<char>)
    requires
        forall|j: int| 0 <= j < props.len() ==> (#[trigger] props[j]).0 != key,
    ensures
        spec_prop_lookup(props, key) is None,
    decreases props.len(),
{
    if props.len() > 0 {
        assert forall|j: int|
            0 <= j < props.skip(1).len() implies (#[trigger] props.skip(1)[j]).0 != key by {
            assert(props.skip(1)[j] == props[j + 1]);
        }
        lemma_lookup_absent(props.skip(1), key);
    }
}

/// Copies a list of strings, value for value.
#[verifier::loop_isolation(false)]
pub fn clone_string_vec(v: &Vec<String>) -> (r: Vec<String>)
    ensures
        r.deep_view() == v.deep_view(),
{
    let mut out: Vec<String> = Vec::new();
    let mut i: usize = 0;
    while i < v.len()
        invariant
            i <= v@.len(),
            out@.len() == i,
            forall|j: int| 0 <= j < i ==> (#[trigger] out@[j])@ == v@[j]@,
        decreases v@.len() - i,
    {
        out.push(v[i].clone());
        i = i + 1;
    }
    proof {
        assert(out.deep_view() =~~= v.deep_view());
    }
    out
}

/// Finds the entry carrying `key`, if one does.
#[verifier::loop_isolation(false)]
pub fn find_key_index(props: &Vec<(String, Vec<String>)>, key: &String) -> (r: Option<usize>)
    ensures
        match r {
            Some(j) => j < props@.len() && props@[j as int].0@ == key@,
            None => forall|j: int| 0 <= j < props@.len() ==> (#[trigger] props@[j]).0@ != key@,
        },
{
    let mut j: usize = 0;
    while j < props.len()
        invariant
            j <= props@.len(),
            forall|j2: int| 0 <= j2 < j ==> (#[trigger] props@[j2]).0@ != key@,
        decreases props@.len() - j,
    {
        if props[j].0.eq(key) {
            return Some(j);
        }
        j = j + 1;
    }
    None
}

/// Builds a property map from key-value pairs: one entry per distinct
/// key, the last value of a repeated key winning, exactly as a map
/// filled from the pairs in order would hold.
#[verifier::loop_isolation(false)]
#[verifier::rlimit(100)]
pub fn make_properties(input: Vec<(&str, &str)>) -> (r: Vec<(String, Vec<String>)>)
    ensures
        spec_keys_unique(spec_props_view(r@)),
        forall|key: Seq<char>|
            #[trigger] spec_prop_lookup(spec_props_view(r@), key) == match spec_last_value(
                spec_pair_views(input@),
                key,
            ) {
                Some(v) => Some(seq![v]),
                None => None::<Seq<Seq<char>>>,
            },
{
    let ghost pv = spec_pair_views(input@);
    let mut out: Vec<(String, Vec<String>)> = Vec::new();
    let mut i: usize = 0;
    proof {
        assert forall|key: Seq<char>| #[trigger] spec_prop_lookup(spec_props_view(out@), key)
            == match spec_last_value(pv.take(0), key) {
            Some(v) => Some(seq![v]),
            None => None::<Seq<Seq<char>>>,
        } by {
            assert(spec_props_view(out@) =~= Seq::<(Seq<char>, Seq<Seq<char>>)>::empty());
            assert(pv.take(0) =~= Seq::<(Seq<char>, Seq<char>)>::empty());
        }
    }
    while i < input.len()
        invariant
            i <= input@.len(),
            pv == spec_pair_views(input@),
            spec_keys_unique(spec_props_view(out@)),
            forall|key: Seq<char>|
                #[trigger] spec_prop_lookup(spec_props_view(out@), key) == match spec_last_value(
                    pv.take(i as int),
                    key,
                ) {
                    Some(v) => Some(seq![v]),
                    None => None::<Seq<Seq<char>>>,
                },
        decreases input@.len() - i,
    {
        let (k, v) = input[i];
        let key_s = k.to_owned();
        let mut values: Vec<String> = Vec::new();
        values.push(v.to_owned());
        proof {
            assert(values.deep_view() =~= seq![pv[i as int].1]);
            assert(pv.take(i + 1).drop_last() =~= pv.take(i as int));
            assert(pv.take(i + 1).last() == pv[i as int]);
        }
        let ghost old_view = spec_props_view(out@);
        match find_key_index(&out, &key_s) {
            Some(j) => {
                out.set(j, (key_s, values));
                proof {
                    let new_view = spec_props_view(out@);
                    assert(new_view.len() == old_view.len());
                    assert(old_view[j as int].0 == k@);
                    assert forall|j2: int|
                        0 <= j2 < new_view.len() implies (#[trigger] new_view[j2]).0
                        == old_view[j2].0 by {}
                    assert(spec_keys_unique(new_view));
                    assert forall|j2: int|
                        0 <= j2 < new_view.len() && j2 != j implies j2 < old_view.len()
                        && #[trigger] new_view[j2] == old_view[j2] by {}
                    lemma_make_properties_step(old_view, new_view, pv, i as int, j as int, k@);
                }
            },
            None => {
                out.push((key_s, values));
                proof {
                    let new_view = spec_props_view(out@);
                    assert(new_view =~~= old_view.push((k@, seq![v@])));
                    assert forall|i1: int, i2: int|
                        0 <= i1 < i2 < new_view.len() implies (#[trigger] new_view[i1]).0 != (
                    #[trigger] new_view[i2]).0 by {
                        if i2 < old_view.len() {
                        } else {
                            assert(new_view[i1].0 == old_view[i1].0);
                            assert(old_view[i1].0 != k@);
                        }
                    }
                    lemma_make_properties_step(
                        old_view,
                        new_view,
                        pv,
                        i as int,
                        old_view.len() as int,
                        k@,
                    );
                }
            },
        }
        i = i + 1;
    }
    proof {
        assert(pv.take(pv.len() as int) =~= pv);
    }
    out
}

/// One step of building the property map: after the entry for the pair's
/// key is written at position `j`, lookups follow the pairs one step
/// further.
proof fn lemma_make_properties_step(
    old_view: Seq<(Seq<char>, Seq<Seq<char>>)>,
    new_view: Seq<(Seq<char>, Seq<Seq<char>>)>,
    pv: Seq<(Seq<char>, Seq<char>)>,
    i: int,
    j: int,
    key_i: Seq<char>,
)
    requires
        0 <= i < pv.len(),
        key_i == pv[i].0,
        spec_keys_unique(old_view),
        spec_keys_unique(new_view),
        0 <= j < new_view.len(),
        new_view[j].0 == key_i,
        new_view[j].1 == seq![pv[i].1],
        j < old_view.len() ==> old_view[j].0 == key_i,
        old_view.len() <= new_view.len(),
        forall|j2: int|
            0 <= j2 < new_view.len() && j2 != j ==> j2 < old_view.len() && #[trigger] new_view[j2]
                == old_view[j2],
        forall|key: Seq<char>|
            #[trigger] spec_prop_lookup(old_view, key) == match spec_last_value(pv.take(i), key) {
                Some(v) => Some(seq![v]),
                None => None::<Seq<Seq<char>>>,
            },
        pv.take(i + 1).drop_last() == pv.take(i),
        pv.take(i + 1).last() == pv[i],
    ensures
        forall|key: Seq<char>|
            #[trigger] spec_prop_lookup(new_view, key) == match spec_last_value(
                pv.take(i + 1),
                key,
            ) {
                Some(v) => Some(seq![v]),
                None => None::<Seq<Seq<char>>>,
            },
{
    assert forall|key: Seq<char>| #[trigger] spec_prop_lookup(new_view, key) == match spec_last_value(
        pv.take(i + 1),
        key,
    ) {
        Some(v) => Some(seq![v]),
        None => None::<Seq<Seq<char>>>,
    } by {
        if key == key_i {
            lemma_lookup_unique(new_view, key, j);
        } else {
            assert(spec_last_value(pv.take(i + 1), key) == spec_last_value(pv.take(i), key));
            if exists|j0: int| 0 <= j0 < old_view.len() && (#[trigger] old_view[j0]).0 == key {
                let j0 = choose|j0: int|
                    0 <= j0 < old_view.len() && (#[trigger] old_view[j0]).0 == key;
                assert(j0 != j);
                assert(new_view[j0] == old_view[j0]);
                lemma_lookup_unique(old_view, key, j0);
                lemma_lookup_unique(new_view, key, j0);
            } else {
                lemma_lookup_absent(old_view, key);
                assert forall|j2: int|
                    0 <= j2 < new_view.len() implies (#[trigger] new_view[j2]).0 != key by {
                    if j2 != j {
                        assert(new_view[j2] == old_view[j2]);
                    }
                }
                lemma_lookup_absent(new_view, key);
            }
        }
    }
}

/// Whether the value, trimmed of spaces and ASCII lower-cased, is one of
/// the four accepted spellings of true.
#[verifier::loop_isolation(false)]
pub fn string_is_truthy(v: &String) -> (r: bool)
    ensures
        r == spec_truthy(v@),
{
    let s = v.as_str();
    let n = s.unicode_len();
    let ghost sq = v@;
    let mut a: usize = 0;
    proof {
        assert(spec_skip_spaces(sq, 0) == spec_skip_spaces(sq, 0));
    }
    while a < n && is_space_char(s.get_char(a))
        invariant
            0 <= a <= n,
            spec_skip_spaces(sq, a as int) == spec_skip_spaces(sq, 0),
            forall|j: int| 0 <= j < a ==> spec_is_space(#[trigger] sq[j]),
        decreases n - a,
    {
        a = a + 1;
    }
    proof {
        assert(spec_skip_spaces(sq, a as int) == a);
    }
    let mut b: usize = n;
    while b > a && is_space_char(s.get_char(b - 1))
        invariant
            a <= b <= n,
            spec_rskip_spaces(sq, b as int) == spec_rskip_spaces(sq, n as int),
        decreases b,
    {
        b = b - 1;
    }
    proof {
        if b > a {
            assert(spec_rskip_spaces(sq, b as int) == b);
        } else {
            assert(b == a);
            if a == 0 {
                assert(spec_rskip_spaces(sq, 0) == 0);
            } else {
                assert(spec_is_space(sq[a - 1]));
                lemma_rskip_below_skip(sq, a as int, a as int);
            }
        }
        assert(spec_trim(sq) =~= sq.subrange(a as int, b as int));
    }
    let r1 = lowered_range_eq(s, a, b, "1");
    let r2 = lowered_range_eq(s, a, b, "true");
    let r3 = lowered_range_eq(s, a, b, "yes");
    let r4 = lowered_range_eq(s, a, b, "ok");
    r1 || r2 || r3 || r4
}

/// Below a run of spaces reaching position `j`, the backward scan stays
/// at or below the forward scan's stop.
proof fn lemma_rskip_below_skip(s: Seq<char>, a: int, j: int)
    requires
        0 < j <= a <= s.len(),
        spec_skip_spaces(s, 0) == a,
        forall|i: int| 0 <= i < a ==> spec_is_space(#[trigger] s[i]),
    ensures
        spec_rskip_spaces(s, j) == 0,
    decreases j,
{
    assert(spec_is_space(s[j - 1]));
    if j > 1 {
        lemma_rskip_below_skip(s, a, j - 1);
    } else {
        assert(spec_rskip_spaces(s, 0) == 0);
    }
}

/// Compares the lower-cased characters of `s[a .. b]` with a literal.
fn lowered_range_eq(s: &str, a: usize, b: usize, lit: &str) -> (r: bool)
    requires
        a <= b <= s@.len(),
    ensures
        r == (spec_lower(s@.subrange(a as int, b as int)) == lit@),
{
    let m = lit.unicode_len();
    if b - a != m {
        proof {
            assert(spec_lower(s@.subrange(a as int, b as int)).len() != lit@.len());
        }
        return false;
    }
    let mut i: usize = 0;
    while i < m
        invariant
            a <= b <= s@.len(),
            b - a == m,
            m == lit@.len(),
            i <= m,
            forall|j: int|
                0 <= j < i ==> spec_lower_char(s@.subrange(a as int, b as int)[j]) == lit@[j],
        decreases m - i,
    {
        let c = s.get_char(a + i);
        let lc = if c >= 'A' && c <= 'Z' {
            (((c as u8) + 32) as char)
        } else {
            c
        };
        let lc2 = lit.get_char(i);
        if lc != lc2 {
            proof {
                assert(spec_lower(s@.subrange(a as int, b as int))[i as int] != lit@[i as int]);
            }
            return false;
        }
        i = i + 1;
    }
    proof {
        assert(spec_lower(s@.subrange(a as int, b as int)) =~= lit@);
    }
    true
}

/// Whether the character is a space, tab, carriage return or line feed.
pub fn is_space_char(c: char) -> (r: bool)
    ensures
        r == spec_is_space(c),
{
    c == ' ' || c == '\t' || c == '\n' || c == '\r'
}

/// Parses a decimal unsigned 64-bit number.
#[verifier::loop_isolation(false)]
pub fn parse_u64(v: &String) -> (r: Option<u64>)
    ensures
        r == spec_parse_u64(v@),
{
    let s = v.as_str();
    let n = s.unicode_len();
    let ghost sq = v@;
    if n == 0 {
        return None;
    }
    let mut acc: u64 = 0;
    let mut i: usize = 0;
    proof {
        assert(sq.take(0) =~= Seq::<char>::empty());
    }
    while i < n
        invariant
            n == sq.len(),
            s@ == sq,
            i <= n,
            spec_all_digits(sq.take(i as int)),
            acc == spec_dec_val(sq.take(i as int)),
        decreases n - i,
    {
        let c = s.get_char(i);
        if !(c >= '0' && c <= '9') {
            proof {
                assert(!('0' <= sq[i as int] <= '9'));
                assert(!spec_all_digits(sq));
                assert(spec_parse_u64(sq) is None);
            }
            return None;
        }
        let d: u8 = (c as u8) - 48;
        if acc > (u64::MAX - (d as u64)) / 10 {
            proof {
                assert(sq.take(i + 1).drop_last() =~= sq.take(i as int));
                assert(sq.take(i + 1).last() == sq[i as int]);
                assert(spec_dec_val(sq.take(i + 1)) == acc * 10 + d);
                let m = (u64::MAX - d) as int;
                vstd::arithmetic::div_mod::lemma_fundamental_div_mod(m, 10);
                vstd::arithmetic::div_mod::lemma_mod_bound(m, 10);
                assert(acc * 10 + d > u64::MAX);
                lemma_dec_val_prefix(sq, i + 1);
                assert(spec_dec_val(sq) > u64::MAX);
                assert(spec_parse_u64(sq) is None);
            }
            return None;
        }
        proof {
            assert(sq.take(i + 1).drop_last() =~= sq.take(i as int));
        }
        acc = acc * 10 + (d as u64);
        i = i + 1;
    }
    proof {
        assert(sq.take(n as int) =~= sq);
    }
    Some(acc)
}

} // verus!
