//! Filters: the predicates of a parsed query, looked up by field and by resource.
use vstd::prelude::*;
use crate::lexer::{ESCAPE, SpecToken, Token};
use crate::parser::{Predicate, SpecPredicate, Value};
use crate::text::{ascii_lowercase, chars_to_string, lowercase_of, push_chars, string_chars, to_lowercase};

verus! {

#[derive(Debug, PartialEq)]
pub struct Filter {
    pub predicates: Vec<Predicate>,
}

/// The views of a sequence of predicates.
pub open spec fn predicate_views(ps: Seq<Predicate>) -> Seq<SpecPredicate> {
    ps.map_values(|p: Predicate| p@)
}

pub proof fn lemma_predicate_views_push(ps: Seq<Predicate>, p: Predicate)
    ensures
        predicate_views(ps.push(p)) == predicate_views(ps).push(p@),
        predicate_views(ps).len() == ps.len(),
{
    assert(predicate_views(ps.push(p)) =~= predicate_views(ps).push(p@));
}

impl View for Filter {
    type V = Seq<SpecPredicate>;

    open spec fn view(&self) -> Seq<SpecPredicate> {
        predicate_views(self.predicates@)
    }
}

#[derive(Debug, PartialEq)]
pub struct Field {
    pub predicate: Predicate,
}

impl View for Field {
    type V = SpecPredicate;

    open spec fn view(&self) -> SpecPredicate {
        self.predicate@
    }
}

impl Clone for Field {
    fn clone(&self) -> (res: Self)
        ensures
            res@ == self@,
    {
        Field { predicate: self.predicate.clone() }
    }
}

/// The views of a sequence of fields.
pub open spec fn field_views(fs: Seq<Field>) -> Seq<SpecPredicate> {
    fs.map_values(|f: Field| f@)
}

proof fn lemma_field_views_push(fs: Seq<Field>, f: Field)
    ensures
        field_views(fs.push(f)) == field_views(fs).push(f@),
        field_views(fs).len() == fs.len(),
{
    assert(field_views(fs.push(f)) =~= field_views(fs).push(f@));
}

/// The position of the first `.` in a field name from position `i` on.
pub open spec fn dot_from(s: Seq<char>, i: int) -> Option<int>
    decreases s.len() - i,
{
    if 0 <= i < s.len() {
        if s[i] == '.' {
            Some(i)
        } else {
            dot_from(s, i + 1)
        }
    } else {
        None
    }
}

proof fn lemma_dot_from(s: Seq<char>, i: int)
    ensures
        dot_from(s, i) matches Some(m) ==> i <= m < s.len() && s[m] == '.',
    decreases s.len() - i,
{
    if 0 <= i < s.len() {
        lemma_dot_from(s, i + 1);
    }
}

/// A field name split at its first `.` into a resource and a name, as in
/// `resource.name`. A `.` preceded by `\` does not split: the `\` is dropped
/// and the whole is the name. A name without `.` has no resource.
pub open spec fn split_field(s: Seq<char>) -> (Option<Seq<char>>, Seq<char>) {
    match dot_from(s, 0) {
        Some(m) => if m > 0 && s[m - 1] == ESCAPE {
            (None, s.take(m - 1) + s.skip(m))
        } else {
            (Some(s.take(m)), s.skip(m + 1))
        },
        None => (None, s),
    }
}

proof fn lemma_dot_from_skips(s: Seq<char>, i: int, j: int)
    requires
        0 <= i <= j <= s.len(),
        forall|k: int| i <= k < j ==> s[k] != '.',
    ensures
        dot_from(s, i) == dot_from(s, j),
    decreases j - i,
{
    if i < j {
        lemma_dot_from_skips(s, i + 1, j);
    }
}

/// The field format `resource.name`: a resource without `.` that does not
/// end in `\` (the empty, anonymous resource included), then `.`, then any
/// name, splits into that resource and that name; a `.` preceded by `\` does
/// not split, and the `\` is dropped; a field without `.` is all name.
pub proof fn lemma_split_forms(r: Seq<char>, n: Seq<char>)
    requires
        forall|k: int| 0 <= k < r.len() ==> r[k] != '.',
    ensures
        r.len() == 0 || r.last() != ESCAPE ==> split_field(r + seq!['.'] + n) == (Some(r), n),
        split_field(r + seq![ESCAPE, '.'] + n) == (None::<Seq<char>>, r + seq!['.'] + n),
        split_field(r) == (None::<Seq<char>>, r),
{
    let s1 = r + seq!['.'] + n;
    lemma_dot_from_skips(s1, 0, r.len() as int);
    assert(s1.take(r.len() as int) == r);
    assert(s1.skip(r.len() as int + 1) == n);
    let s2 = r + seq![ESCAPE, '.'] + n;
    lemma_dot_from_skips(s2, 0, r.len() as int + 1);
    assert(s2.take(r.len() as int) + s2.skip(r.len() as int + 1) == r + seq!['.'] + n);
    lemma_dot_from_skips(r, 0, r.len() as int);
}

/// The predicates whose field name is `name`, compared in lowercase.
pub open spec fn fields_of(ps: Seq<SpecPredicate>, name: Seq<char>) -> Seq<SpecPredicate> {
    ps.filter(|p: SpecPredicate| lowercase_of(p.field.value) == lowercase_of(name))
}

/// The predicate scoped to resource `r`: when its field is `r.name` (compared
/// in lowercase), the same predicate with the field `name`.
pub open spec fn scoped_to(p: SpecPredicate, r: Seq<char>) -> Option<SpecPredicate> {
    match split_field(p.field.value).0 {
        Some(res) => if lowercase_of(res) == lowercase_of(r) {
            Some(
                SpecPredicate {
                    unused: p.unused,
                    field: SpecToken { kind: p.field.kind, value: split_field(p.field.value).1 },
                    operator: p.operator,
                    value: p.value,
                },
            )
        } else {
            None
        },
        None => None,
    }
}

/// The predicates of resource `r`, with their fields stripped of the resource.
pub open spec fn resource_of(ps: Seq<SpecPredicate>, r: Seq<char>) -> Seq<SpecPredicate> {
    ps.filter_map(|p: SpecPredicate| scoped_to(p, r))
}

/// Lookups ignore case: two names with the same lowercase find the same
/// fields and scope to the same resource. For ASCII names the lowercase is the
/// ASCII one, which `fields`, `field` and `resource` state of the name they
/// are given.
pub proof fn lemma_lookup_ignores_case(ps: Seq<SpecPredicate>, a: Seq<char>, b: Seq<char>)
    requires
        lowercase_of(a) == lowercase_of(b),
    ensures
        fields_of(ps, a) == fields_of(ps, b),
        resource_of(ps, a) == resource_of(ps, b),
{
    assert((|p: SpecPredicate| lowercase_of(p.field.value) == lowercase_of(a)) =~= (|
        p: SpecPredicate,
    | lowercase_of(p.field.value) == lowercase_of(b)));
    assert((|p: SpecPredicate| scoped_to(p, a)) =~= (|p: SpecPredicate| scoped_to(p, b)));
}

/// The fields found for `name` are the predicates whose whole field text
/// has the lowercase of `name`: each found predicate is one of the filter's
/// and has that lowercase, and each predicate of the filter that has it is
/// found, in the filter's order.
pub proof fn lemma_fields_match_whole_name(ps: Seq<SpecPredicate>, name: Seq<char>)
    ensures
        forall|k: int|
            0 <= k < fields_of(ps, name).len() ==> lowercase_of(
                (#[trigger] fields_of(ps, name)[k]).field.value,
            ) == lowercase_of(name) && ps.contains(fields_of(ps, name)[k]),
        forall|k: int|
            0 <= k < ps.len() && lowercase_of((#[trigger] ps[k]).field.value) == lowercase_of(name)
                ==> fields_of(ps, name).contains(ps[k]),
        fields_of(ps, name) == ps.filter(
            |p: SpecPredicate| lowercase_of(p.field.value) == lowercase_of(name),
        ),
{
    let pred = |p: SpecPredicate| lowercase_of(p.field.value) == lowercase_of(name);
    let found = fields_of(ps, name);
    assert(found == ps.filter(pred));
    ps.filter_lemma(pred);
    assert forall|k: int| 0 <= k < found.len() implies lowercase_of(
        (#[trigger] found[k]).field.value,
    ) == lowercase_of(name) && ps.contains(found[k]) by {
        assert(pred(found[k]));
        assert(found.contains(found[k]));
        ps.lemma_filter_contains_rev(pred, found[k]);
    }
    assert forall|k: int|
        0 <= k < ps.len() && lowercase_of((#[trigger] ps[k]).field.value) == lowercase_of(
            name,
        ) implies found.contains(ps[k]) by {
        assert(pred(ps[k]));
    }
}

/// Whether a predicate's field has a resource (the text before its first `.`
/// that is not escaped) whose lowercase is that of `r`.
pub open spec fn has_resource(p: SpecPredicate, r: Seq<char>) -> bool {
    match split_field(p.field.value).0 {
        Some(res) => lowercase_of(res) == lowercase_of(r),
        None => false,
    }
}

/// The predicate with its field reduced to the name after the resource.
pub open spec fn without_resource(p: SpecPredicate) -> SpecPredicate {
    SpecPredicate {
        unused: p.unused,
        field: SpecToken { kind: p.field.kind, value: split_field(p.field.value).1 },
        operator: p.operator,
        value: p.value,
    }
}

/// Scoping to resource `r` keeps exactly the predicates whose resource is `r`
/// (compared in lowercase, for equality), in order, each with its field
/// reduced to the name after the resource.
pub proof fn lemma_resource_keeps_equal_resources(ps: Seq<SpecPredicate>, r: Seq<char>)
    ensures
        resource_of(ps, r) == ps.filter(|p: SpecPredicate| has_resource(p, r)).map_values(
            |p: SpecPredicate| without_resource(p),
        ),
    decreases ps.len(),
{
    let pred = |p: SpecPredicate| has_resource(p, r);
    let strip = |p: SpecPredicate| without_resource(p);
    reveal(Seq::filter);
    if ps.len() == 0 {
        assert(ps.filter(pred).map_values(strip) =~= Seq::<SpecPredicate>::empty());
        assert(resource_of(ps, r) =~= Seq::<SpecPredicate>::empty());
    } else {
        let rest = ps.drop_last();
        let last = ps.last();
        lemma_resource_keeps_equal_resources(rest, r);
        let kept = rest.filter(pred);
        if has_resource(last, r) {
            assert(kept.push(last).map_values(strip) =~= kept.map_values(strip).push(
                without_resource(last),
            ));
            assert(scoped_to(last, r) == Some(without_resource(last)));
            assert(resource_of(ps, r) == resource_of(rest, r) + seq![without_resource(last)]);
            assert(resource_of(rest, r) + seq![without_resource(last)] =~= resource_of(
                rest,
                r,
            ).push(without_resource(last)));
        } else {
            assert(scoped_to(last, r) is None);
        }
    }
}

impl Filter {
    /// Field returns a field.
    pub fn field(&self, name: &str) -> (r: Option<Field>)
        ensures
            match r {
                Some(f) => fields_of(self@, name@).len() > 0 && f@ == fields_of(self@, name@)[0],
                None => fields_of(self@, name@).len() == 0,
            },
            vstd::utf8::is_ascii_chars(name@) ==> lowercase_of(name@) == ascii_lowercase(name@),
    {
        let fields = self.fields(name);
        if fields.len() > 0 {
            proof {
                assert(fields@[0]@ == field_views(fields@)[0]);
            }
            Some(fields[0].clone())
        } else {
            None
        }
    }

    /// Fields returns fields.
    pub fn fields(&self, name: &str) -> (r: Vec<Field>)
        ensures
            field_views(r@) == fields_of(self@, name@),
            vstd::utf8::is_ascii_chars(name@) ==> lowercase_of(name@) == ascii_lowercase(name@),
    {
        let mut fields: Vec<Field> = Vec::new();
        let key_text = to_lowercase(name);
        let ghost key = key_text@;
        let ghost pred = |p: SpecPredicate| lowercase_of(p.field.value) == key;
        let n = self.predicates.len();
        let mut i: usize = 0;
        assert(field_views(fields@) =~= self@.take(0).filter(pred)) by {
            reveal(Seq::filter);
        }
        while i < n
            invariant
                n == self.predicates@.len(),
                i <= n,
                key == key_text@,
                key == lowercase_of(name@),
                pred == (|p: SpecPredicate| lowercase_of(p.field.value) == key),
                field_views(fields@) == self@.take(i as int).filter(pred),
            decreases n - i,
        {
            let p = &self.predicates[i];
            assert(p@ == self@[i as int]);
            let predicate_name = chars_to_string(p.field.value.as_slice());
            let lowered = to_lowercase(predicate_name.as_str());
            assert(self@.take(i + 1) == self@.take(i as int).push(self@[i as int]));
            proof {
                self@.take(i as int).lemma_filter_push(self@[i as int], pred);
            }
            if lowered == key_text {
                let f = Field { predicate: p.clone() };
                proof {
                    lemma_field_views_push(fields@, f);
                }
                fields.push(f);
            }
            i = i + 1;
        }
        assert(self@.take(n as int) == self@);
        assert(pred =~= (|p: SpecPredicate| lowercase_of(p.field.value) == lowercase_of(name@)));
        fields
    }

    /// Resource returns a filter scoped to resource.
    pub fn resource(&self, r: &str) -> (res: Filter)
        ensures
            res@ == resource_of(self@, r@),
            vstd::utf8::is_ascii_chars(r@) ==> lowercase_of(r@) == ascii_lowercase(r@),
    {
        let r_lower = to_lowercase(r);
        let ghost f = |p: SpecPredicate| scoped_to(p, r@);
        let mut predicates: Vec<Predicate> = Vec::new();
        let n = self.predicates.len();
        let mut i: usize = 0;
        assert(predicate_views(predicates@) =~= self@.take(0).filter_map(f));
        while i < n
            invariant
                n == self.predicates@.len(),
                i <= n,
                r_lower@ == lowercase_of(r@),
                f == (|p: SpecPredicate| scoped_to(p, r@)),
                predicate_views(predicates@) == self@.take(i as int).filter_map(f),
            decreases n - i,
        {
            let p = &self.predicates[i];
            assert(p@ == self@[i as int]);
            assert(self@.take(i + 1).drop_last() == self@.take(i as int));
            assert(self@.take(i + 1).last() == self@[i as int]);
            let field = Field { predicate: p.clone() };
            if let Some(fr) = field.resource() {
                let lowered = to_lowercase(fr.as_str());
                if lowered == r_lower {
                    let field_name = string_chars(field.name().as_str());
                    let scoped = Predicate {
                        unused: p.unused.clone(),
                        field: Token { kind: p.field.kind, value: field_name },
                        operator: p.operator.clone(),
                        value: p.value.clone(),
                    };
                    proof {
                        lemma_predicate_views_push(predicates@, scoped);
                    }
                    predicates.push(scoped);
                    assert(predicate_views(predicates@) =~= self@.take(i + 1).filter_map(f));
                }
            }
            i = i + 1;
        }
        assert(self@.take(n as int) == self@);
        Filter { predicates }
    }

    pub fn is_empty(&self) -> (r: bool)
        ensures
            r == (self@.len() == 0),
    {
        proof {
            assert(predicate_views(self.predicates@).len() == self.predicates@.len());
        }
        self.predicates.len() == 0
    }
}

impl Field {
    /// Name returns the field name.
    pub fn name(&self) -> (r: String)
        ensures
            r@ == split_field(self@.field.value).1,
    {
        let (_, s) = self.split();
        s
    }

    /// The resource of the field name, if it has one.
    pub fn resource(&self) -> (r: Option<String>)
        ensures
            match r {
                Some(s) => split_field(self@.field.value).0 == Some(s@),
                None => split_field(self@.field.value).0 is None,
            },
    {
        let (s, _) = self.split();
        s
    }

    pub fn value(&self) -> (r: Value)
        ensures
            r@ == self@.value,
    {
        self.predicate.value.clone()
    }

    pub fn operator(&self) -> (r: Token)
        ensures
            r@ == self@.operator,
    {
        self.predicate.operator.clone()
    }

    /// split field name.
    /// format: resource.name
    /// The resource may be "" (anonymous).
    /// The (.) separator is escaped when preceded by (\).
    pub fn split(&self) -> (r: (Option<String>, String))
        ensures
            r.1@ == split_field(self@.field.value).1,
            match r.0 {
                Some(s) => split_field(self@.field.value).0 == Some(s@),
                None => split_field(self@.field.value).0 is None,
            },
    {
        let s = &self.predicate.field.value;
        let ghost cs = s@;
        let n = s.len();
        let mut i: usize = 0;
        while i < n && s[i] != '.'
            invariant
                cs == s@,
                n == cs.len(),
                i <= n,
                dot_from(cs, 0) == dot_from(cs, i as int),
            decreases n - i,
        {
            i = i + 1;
        }
        if i < n {
            let mark = i;
            assert(dot_from(cs, 0) == Some(mark as int));
            if mark > 0 && s[mark - 1] == ESCAPE {
                let mut name = String::new();
                push_chars(&mut name, s.as_slice(), 0, mark - 1);
                push_chars(&mut name, s.as_slice(), mark, n);
                assert(cs.subrange(0, mark - 1) == cs.take(mark - 1));
                assert(cs.subrange(mark as int, n as int) == cs.skip(mark as int));
                assert(Seq::<char>::empty() + cs.take(mark - 1) == cs.take(mark - 1));
                (None, name)
            } else {
                let mut relation = String::new();
                push_chars(&mut relation, s.as_slice(), 0, mark);
                let mut name = String::new();
                push_chars(&mut name, s.as_slice(), mark + 1, n);
                assert(Seq::<char>::empty() + cs.subrange(0, mark as int) == cs.take(mark as int));
                assert(Seq::<char>::empty() + cs.subrange(mark + 1, n as int) == cs.skip(mark + 1));
                (Some(relation), name)
            }
        } else {
            assert(dot_from(cs, 0) is None);
            (None, chars_to_string(s.as_slice()))
        }
    }
}

} // verus!
