//! Tag analysis over the high-level IR: the value, spatial and timeline tags
//! each variable has at a program point, deduced statement by statement.
use vstd::prelude::*;

use crate::ast::{DataType, Flow, Quotient, QuotientReference, SchedTerm, SpecType, Tag, with_specified, with_unknown_filled};
use crate::cfg::{FINAL_BLOCK_ID, START_BLOCK_ID};
use crate::hir::{ret_var, ret_var_name, HirBody, Terminator};
use crate::name_set::{contains_name, names_of};
use crate::text::{decimal, lemma_decimal_injective, lemma_text_lt_total, text_lt_exec, text_of, usize_to_text};

verus! {

/// The value, spatial and timeline tags of a variable.
#[derive(Debug)]
pub struct TripleTag {
    pub value: Tag,
    pub spatial: Tag,
    pub timeline: Tag,
}

/// `t` with every part that `o` gives taken from `o`, in each of the three tags.
pub open spec fn triple_set(t: TripleTag, o: TripleTag) -> TripleTag {
    TripleTag {
        value: with_specified(t.value, o.value),
        spatial: with_specified(t.spatial, o.spatial),
        timeline: with_specified(t.timeline, o.timeline),
    }
}

/// `t` with every part that it lacks taken from `o`, in each of the three tags.
pub open spec fn triple_fill(t: TripleTag, o: TripleTag) -> TripleTag {
    TripleTag {
        value: with_unknown_filled(t.value, o.value),
        spatial: with_unknown_filled(t.spatial, o.spatial),
        timeline: with_unknown_filled(t.timeline, o.timeline),
    }
}

/// The tag `none()` of a spec with the given flow.
pub open spec fn none_tag(spec_type: SpecType, flow: Flow) -> Tag {
    Tag { quot: Some(Quotient::Nil), quot_var: QuotientReference { spec_type, spec_var: None }, flow: Some(flow) }
}

/// The tag `none()` of a spec with the given flow.
pub fn make_none_tag(spec_type: SpecType, flow: Flow) -> (res: Tag)
    ensures
        res == none_tag(spec_type, flow),
{
    Tag { quot: Some(Quotient::Nil), quot_var: QuotientReference { spec_type, spec_var: None }, flow: Some(flow) }
}

/// The three tags `none()-usable`.
pub open spec fn none_usable() -> TripleTag {
    TripleTag {
        value: none_tag(SpecType::Value, Flow::Usable),
        spatial: none_tag(SpecType::Spatial, Flow::Usable),
        timeline: none_tag(SpecType::Timeline, Flow::Usable),
    }
}

/// `t` with its unknown parts filled: `none()-usable` for the value and the
/// timeline, and for the spatial tag `none()-save` when the variable is a
/// reference or a storage buffer, `none()-usable` otherwise.
pub open spec fn none_usable_filled(t: TripleTag, is_ref: bool, storage: bool) -> TripleTag {
    TripleTag {
        value: with_unknown_filled(t.value, none_tag(SpecType::Value, Flow::Usable)),
        spatial: with_unknown_filled(
            t.spatial,
            none_tag(
                SpecType::Spatial,
                if is_ref || storage {
                    Flow::Save
                } else {
                    Flow::Usable
                },
            ),
        ),
        timeline: with_unknown_filled(t.timeline, none_tag(SpecType::Timeline, Flow::Usable)),
    }
}

/// A copy of a tag.
pub fn copy_tag(t: &Tag) -> (res: Tag)
    ensures
        res == *t,
{
    let spec_var = match &t.quot_var.spec_var {
        Some(v) => Some(v.clone()),
        None => None,
    };
    Tag { quot: t.quot, quot_var: QuotientReference { spec_type: t.quot_var.spec_type, spec_var }, flow: t.flow }
}

impl TripleTag {
    /// A copy of these tags.
    pub fn copy(&self) -> (res: Self)
        ensures
            res == *self,
    {
        TripleTag { value: copy_tag(&self.value), spatial: copy_tag(&self.spatial), timeline: copy_tag(&self.timeline) }
    }

    /// Three tags that give nothing.
    pub fn new_unspecified() -> (res: Self)
        ensures
            res.value == (Tag { quot: None, quot_var: QuotientReference { spec_type: SpecType::Value, spec_var: None }, flow: None }),
            res.spatial == (Tag { quot: None, quot_var: QuotientReference { spec_type: SpecType::Spatial, spec_var: None }, flow: None }),
            res.timeline == (Tag { quot: None, quot_var: QuotientReference { spec_type: SpecType::Timeline, spec_var: None }, flow: None }),
    {
        TripleTag {
            value: Tag::new_unspecified(SpecType::Value),
            spatial: Tag::new_unspecified(SpecType::Spatial),
            timeline: Tag::new_unspecified(SpecType::Timeline),
        }
    }

    /// The three tags `none()-usable`.
    pub fn new_none_usable() -> (res: Self)
        ensures
            res == none_usable(),
    {
        TripleTag {
            value: make_none_tag(SpecType::Value, Flow::Usable),
            spatial: make_none_tag(SpecType::Spatial, Flow::Usable),
            timeline: make_none_tag(SpecType::Timeline, Flow::Usable),
        }
    }

    /// Copies every part of `other` that is given into `self`.
    pub fn set_specified_info(&mut self, other: Self)
        ensures
            *final(self) == triple_set(*old(self), other),
    {
        self.value.set_specified_info(other.value);
        self.spatial.set_specified_info(other.spatial);
        self.timeline.set_specified_info(other.timeline);
    }

    /// Fills every part of `self` that is missing from `other`.
    pub fn override_unknown_info(&mut self, other: Self)
        ensures
            *final(self) == triple_fill(*old(self), other),
    {
        self.value.override_unknown_info(other.value);
        self.spatial.override_unknown_info(other.spatial);
        self.timeline.override_unknown_info(other.timeline);
    }
}

/// `tag` with its unknown parts filled as `none_usable_filled` says.
pub fn override_none_usable(tag: TripleTag, is_ref: bool, storage: bool) -> (res: TripleTag)
    ensures
        res == none_usable_filled(tag, is_ref, storage),
{
    let mut tag = tag;
    let flow = if is_ref || storage {
        Flow::Save
    } else {
        Flow::Usable
    };
    tag.spatial.override_unknown_info(make_none_tag(SpecType::Spatial, flow));
    tag.timeline.override_unknown_info(make_none_tag(SpecType::Timeline, Flow::Usable));
    tag.value.override_unknown_info(make_none_tag(SpecType::Value, Flow::Usable));
    tag
}

/// Whether two texts are equal.
pub fn same_text(a: &str, b: &str) -> (res: bool)
    ensures
        res == (a@ == b@),
{
    let lt = text_lt_exec(a, b);
    let gt = text_lt_exec(b, a);
    proof {
        if a@ != b@ {
            lemma_text_lt_total(a@, b@);
        } else {
            crate::text::lemma_text_lt_irreflexive(a@);
        }
    }
    !lt && !gt
}

/// No name is a key twice.
pub open spec fn keys_distinct(v: Seq<(String, TripleTag)>) -> bool {
    forall|i: int, j: int| 0 <= i < j < v.len() ==> #[trigger] v[i].0@ != #[trigger] v[j].0@
}

/// The map from names to tags that a list of entries holds.
pub open spec fn tag_map(v: Seq<(String, TripleTag)>) -> Map<Seq<char>, TripleTag> {
    Map::new(
        |k: Seq<char>| exists|i: int| 0 <= i < v.len() && #[trigger] v[i].0@ == k,
        |k: Seq<char>| v[choose|i: int| 0 <= i < v.len() && #[trigger] v[i].0@ == k].1,
    )
}

/// An entry of a list with distinct keys is in its map.
pub proof fn lemma_tag_map_at(v: Seq<(String, TripleTag)>, i: int)
    requires
        keys_distinct(v),
        0 <= i < v.len(),
    ensures
        tag_map(v).contains_key(v[i].0@),
        tag_map(v)[v[i].0@] == v[i].1,
{
    let k = v[i].0@;
    assert(tag_map(v).dom().contains(k));
    let j = choose|j: int| 0 <= j < v.len() && #[trigger] v[j].0@ == k;
    if j != i {
        if j < i {
            assert(v[j].0@ != v[i].0@);
        } else {
            assert(v[i].0@ != v[j].0@);
        }
    }
}

/// The index of the entry for `k`, if any.
pub fn find_key(v: &Vec<(String, TripleTag)>, k: &str) -> (res: Option<usize>)
    ensures
        res matches Some(i) ==> i < v@.len() && v@[i as int].0@ == k@,
        res is None ==> !tag_map(v@).contains_key(k@),
{
    let mut i: usize = 0;
    while i < v.len()
        invariant
            i <= v@.len(),
            forall|j: int| 0 <= j < i ==> #[trigger] v@[j].0@ != k@,
        decreases v@.len() - i,
    {
        if same_text(v[i].0.as_str(), k) {
            return Some(i);
        }
        i += 1;
    }
    proof {
        if tag_map(v@).contains_key(k@) {
            let j = choose|j: int| 0 <= j < v@.len() && #[trigger] v@[j].0@ == k@;
            assert(v@[j].0@ != k@);
        }
    }
    None
}

/// Sets the tags of `k` to `t`.
pub fn upsert_tag(v: &mut Vec<(String, TripleTag)>, k: &String, t: TripleTag)
    requires
        keys_distinct(old(v)@),
    ensures
        keys_distinct(final(v)@),
        tag_map(final(v)@) == tag_map(old(v)@).insert(k@, t),
{
    let ghost old_v = v@;
    match find_key(v, k.as_str()) {
        Some(i) => {
            v.set(i, (k.clone(), t));
            proof {
                let w = v@;
                assert forall|a: int, b: int| 0 <= a < b < w.len() implies #[trigger] w[a].0@ != #[trigger] w[b].0@ by {
                    assert(old_v[a].0@ != old_v[b].0@);
                }
                assert forall|key: Seq<char>| #[trigger] tag_map(w).contains_key(key) <==> tag_map(old_v).insert(k@, w[i as int].1).contains_key(key) by {
                    if tag_map(w).contains_key(key) {
                        let j = choose|j: int| 0 <= j < w.len() && #[trigger] w[j].0@ == key;
                        if j != i {
                            assert(old_v[j].0@ == key);
                        }
                    }
                    if tag_map(old_v).contains_key(key) {
                        let j = choose|j: int| 0 <= j < old_v.len() && #[trigger] old_v[j].0@ == key;
                        assert(w[j].0@ == key);
                    }
                    if key == k@ {
                        assert(w[i as int].0@ == key);
                    }
                }
                assert forall|key: Seq<char>| #[trigger] tag_map(w).contains_key(key) implies tag_map(w)[key] == tag_map(old_v).insert(k@, w[i as int].1)[key] by {
                    let j = choose|j: int| 0 <= j < w.len() && #[trigger] w[j].0@ == key;
                    lemma_tag_map_at(w, j);
                    if j != i {
                        lemma_tag_map_at(old_v, j);
                    }
                }
                assert(tag_map(w) =~= tag_map(old_v).insert(k@, w[i as int].1));
            }
        },
        None => {
            v.push((k.clone(), t));
            proof {
                let w = v@;
                assert forall|a: int, b: int| 0 <= a < b < w.len() implies #[trigger] w[a].0@ != #[trigger] w[b].0@ by {
                    if b == old_v.len() {
                        assert(old_v[a].0@ == w[a].0@);
                        assert(tag_map(old_v).dom().contains(old_v[a].0@));
                    }
                }
                assert forall|key: Seq<char>| #[trigger] tag_map(w).contains_key(key) <==> tag_map(old_v).insert(k@, w[old_v.len() as int].1).contains_key(key) by {
                    if tag_map(w).contains_key(key) {
                        let j = choose|j: int| 0 <= j < w.len() && #[trigger] w[j].0@ == key;
                        if j < old_v.len() {
                            assert(old_v[j].0@ == key);
                        }
                    }
                    if tag_map(old_v).contains_key(key) {
                        let j = choose|j: int| 0 <= j < old_v.len() && #[trigger] old_v[j].0@ == key;
                        assert(w[j].0@ == key);
                    }
                    if key == k@ {
                        assert(w[old_v.len() as int].0@ == key);
                    }
                }
                assert forall|key: Seq<char>| #[trigger] tag_map(w).contains_key(key) implies tag_map(w)[key] == tag_map(old_v).insert(k@, w[old_v.len() as int].1)[key] by {
                    let j = choose|j: int| 0 <= j < w.len() && #[trigger] w[j].0@ == key;
                    lemma_tag_map_at(w, j);
                    if j < old_v.len() {
                        lemma_tag_map_at(old_v, j);
                    }
                }
                assert(tag_map(w) =~= tag_map(old_v).insert(k@, w[old_v.len() as int].1));
            }
        },
    }
}

/// The tags of a variable after setting the parts that `t` gives, for each
/// annotation of `anns` in turn (a variable without tags takes those of the
/// annotation).
pub open spec fn annot_set(m: Map<Seq<char>, TripleTag>, anns: Seq<(String, TripleTag)>) -> Map<Seq<char>, TripleTag>
    decreases anns.len(),
{
    if anns.len() == 0 {
        m
    } else {
        let m1 = annot_set(m, anns.drop_last());
        let v = anns.last().0@;
        let t = anns.last().1;
        if m1.contains_key(v) {
            m1.insert(v, triple_set(m1[v], t))
        } else {
            m1.insert(v, t)
        }
    }
}

/// `t` with the value tag `v`.
pub open spec fn with_value(t: TripleTag, v: Tag) -> TripleTag {
    TripleTag { value: v, spatial: t.spatial, timeline: t.timeline }
}

/// `t` with the spatial tag `s`.
pub open spec fn with_spatial(t: TripleTag, s: Tag) -> TripleTag {
    TripleTag { value: t.value, spatial: s, timeline: t.timeline }
}

/// The tags given to a declared variable: those of its declaration, with the
/// value tag of the variable it is initialized from when that has tags.
pub open spec fn decl_tag(tags: Map<Seq<char>, TripleTag>, lhs_tag: TripleTag, rhs: Option<SchedTerm>) -> TripleTag {
    match rhs {
        Some(SchedTerm::Var { name, .. }) => if tags.contains_key(name@) {
            with_value(lhs_tag, tags[name@].value)
        } else {
            lhs_tag
        },
        _ => lhs_tag,
    }
}

/// The spatial tag of a mutable variable: `save` and `none()` where not given.
pub open spec fn var_spatial(t: Tag) -> Tag {
    Tag {
        quot: if t.quot is None { Some(Quotient::Nil) } else { t.quot },
        quot_var: t.quot_var,
        flow: if t.flow is None { Some(Flow::Save) } else { t.flow },
    }
}

/// The name of the `i`-th dimension argument.
pub open spec fn dim_var(i: nat) -> Seq<char> {
    "_dim"@ + decimal(i)
}

/// The tag analysis fact: the tags of the variables at a program point.
pub struct TagAnalysis {
    tags: Vec<(String, TripleTag)>,
    /// The input tags to be overridden in the current block.
    input_overrides: Vec<(String, TripleTag)>,
    data_types: Vec<(String, DataType)>,
    /// The variables whose buffers are storage buffers.
    storage: Vec<String>,
    /// The tags of the return values, added at the start of the final block.
    out_tags: Option<Vec<(String, TripleTag)>>,
    /// The block this fact is a part of.
    block: Option<usize>,
}

impl TagAnalysis {
    /// No variable has two entries.
    pub closed spec fn wf(&self) -> bool {
        &&& keys_distinct(self.tags@)
        &&& keys_distinct(self.input_overrides@)
    }

    /// The tags of the variables.
    pub closed spec fn tags(&self) -> Map<Seq<char>, TripleTag> {
        tag_map(self.tags@)
    }

    /// The input tags overridden in the current block.
    pub closed spec fn overrides(&self) -> Map<Seq<char>, TripleTag> {
        tag_map(self.input_overrides@)
    }

    /// `self` has the data types, storage buffers, return tags and block of
    /// `other`.
    pub closed spec fn same_setting(&self, other: TagAnalysis) -> bool {
        &&& self.data_types@ == other.data_types@
        &&& self.storage@ == other.storage@
        &&& self.out_tags == other.out_tags
        &&& self.block == other.block
    }

    /// Facts with the same setting agree on types and storage buffers.
    pub proof fn lemma_same_setting(&self, other: TagAnalysis)
        requires
            self.same_setting(other),
        ensures
            forall|k: Seq<char>| self.declared(k) == other.declared(k) && self.is_ref(k) == other.is_ref(k)
                && self.storage(k) == other.storage(k),
    {
    }

    /// `k` has a declared data type.
    pub closed spec fn declared(&self, k: Seq<char>) -> bool {
        exists|i: int| 0 <= i < self.data_types@.len() && #[trigger] self.data_types@[i].0@ == k
    }

    /// `k` is declared with a reference type.
    pub closed spec fn is_ref(&self, k: Seq<char>) -> bool {
        exists|i: int| 0 <= i < self.data_types@.len() && #[trigger] self.data_types@[i].0@ == k && self.data_types@[i].1 is Ref
    }

    /// `k` is a storage buffer.
    pub closed spec fn storage(&self, k: Seq<char>) -> bool {
        names_of(self.storage@).contains(k)
    }

    /// Whether `k` is declared with a reference type, and whether it is declared.
    fn type_of(&self, k: &String) -> (res: (bool, bool))
        ensures
            res.0 == self.is_ref(k@),
            res.1 == self.declared(k@),
    {
        let mut is_ref = false;
        let mut declared = false;
        let mut i: usize = 0;
        while i < self.data_types.len()
            invariant
                i <= self.data_types@.len(),
                is_ref == exists|j: int| 0 <= j < i && #[trigger] self.data_types@[j].0@ == k@ && self.data_types@[j].1 is Ref,
                declared == exists|j: int| 0 <= j < i && #[trigger] self.data_types@[j].0@ == k@,
            decreases self.data_types@.len() - i,
        {
            if same_text(self.data_types[i].0.as_str(), k.as_str()) {
                declared = true;
                if let DataType::Ref(_) = &self.data_types[i].1 {
                    is_ref = true;
                }
            }
            i += 1;
        }
        (is_ref, declared)
    }

    /// The tags of `k`, if it has any.
    pub fn get_tag(&self, var: &str) -> (res: Option<&TripleTag>)
        requires
            self.wf(),
        ensures
            res matches Some(t) ==> self.tags().contains_key(var@) && *t == self.tags()[var@],
            res is None ==> !self.tags().contains_key(var@),
    {
        match find_key(&self.tags, var) {
            Some(i) => {
                proof {
                    lemma_tag_map_at(self.tags@, i as int);
                }
                Some(&self.tags[i].1)
            },
            None => None,
        }
    }

    /// The overridden input tags of `k`, if it has any.
    pub fn get_input_override(&self, var: &str) -> (res: Option<&TripleTag>)
        requires
            self.wf(),
        ensures
            res matches Some(t) ==> self.overrides().contains_key(var@) && *t == self.overrides()[var@],
            res is None ==> !self.overrides().contains_key(var@),
    {
        match find_key(&self.input_overrides, var) {
            Some(i) => {
                proof {
                    lemma_tag_map_at(self.input_overrides@, i as int);
                }
                Some(&self.input_overrides[i].1)
            },
            None => None,
        }
    }
}

/// The tags of every variable after statement `stmt`, given the fact `a` before it.
pub open spec fn tag_step(a: TagAnalysis, stmt: HirBody) -> Map<Seq<char>, TripleTag> {
    let tags = a.tags();
    match stmt {
        HirBody::ConstDecl { lhs, lhs_tag, rhs, .. } => tags.insert(
            lhs@,
            none_usable_filled(decl_tag(tags, lhs_tag, Some(rhs)), a.is_ref(lhs@), a.storage(lhs@)),
        ),
        HirBody::VarDecl { lhs, lhs_tag, rhs, .. } => {
            let v = match rhs {
                None => with_value(lhs_tag, none_tag(SpecType::Value, Flow::Dead)),
                Some(_) => decl_tag(tags, lhs_tag, rhs),
            };
            tags.insert(lhs@, none_usable_filled(with_spatial(v, var_spatial(v.spatial)), a.is_ref(lhs@), a.storage(lhs@)))
        },
        HirBody::RefStore { lhs, lhs_tags, rhs, .. } => {
            let t1 = triple_set(tags[lhs@], lhs_tags);
            let m1 = tags.insert(lhs@, t1);
            match rhs {
                SchedTerm::Var { name, .. } => if m1.contains_key(name@) {
                    m1.insert(lhs@, with_value(t1, m1[name@].value))
                } else {
                    m1
                },
                _ => m1,
            }
        },
        HirBody::RefLoad { dest, src, .. } => {
            let t = if tags.contains_key(src@) {
                tags[src@]
            } else {
                a.overrides()[src@]
            };
            let t2 = if t.spatial.flow == Some(Flow::Save) {
                with_spatial(t, Tag { quot: t.spatial.quot, quot_var: t.spatial.quot_var, flow: Some(Flow::Usable) })
            } else {
                t
            };
            tags.insert(dest@, none_usable_filled(t2, a.is_ref(dest@), a.storage(dest@)))
        },
        HirBody::Op { dest, dest_tag, .. } => tags.insert(
            dest@,
            none_usable_filled(dest_tag, a.is_ref(dest@), a.storage(dest@)),
        ),
        HirBody::OutAnnotation(_, anns) => annot_set(tags, anns@),
        HirBody::InAnnotation(_, anns) => annot_set(tags, anns@),
        _ => tags,
    }
}

/// The overridden input tags after statement `stmt`, given the fact `a` before it:
/// an input annotation overrides the tags it gives.
pub open spec fn overrides_step(a: TagAnalysis, stmt: HirBody) -> Map<Seq<char>, TripleTag> {
    match stmt {
        HirBody::InAnnotation(_, anns) => annot_set(a.overrides(), anns@),
        _ => a.overrides(),
    }
}

/// The statement can be analyzed from the fact `a`: it is no hole and no phi
/// node, every variable it defines has a declared type, a stored-to variable
/// has tags, and a loaded-from variable has tags or overridden input tags.
pub open spec fn tag_stmt_ok(a: TagAnalysis, stmt: HirBody) -> bool {
    match stmt {
        HirBody::ConstDecl { lhs, .. } => a.declared(lhs@),
        HirBody::VarDecl { lhs, .. } => a.declared(lhs@),
        HirBody::Op { dest, .. } => a.declared(dest@),
        HirBody::RefStore { lhs, .. } => a.tags().contains_key(lhs@),
        HirBody::RefLoad { dest, src, .. } => a.declared(dest@) && (a.tags().contains_key(src@)
            || a.overrides().contains_key(src@)),
        HirBody::Hole(_) => false,
        HirBody::Phi { .. } => false,
        _ => true,
    }
}

/// Applies the annotations `anns` to the tag map `v` (see `annot_set`).
fn apply_annotations(v: &mut Vec<(String, TripleTag)>, anns: &Vec<(String, TripleTag)>)
    requires
        keys_distinct(old(v)@),
    ensures
        keys_distinct(final(v)@),
        tag_map(final(v)@) == annot_set(tag_map(old(v)@), anns@),
{
    let ghost start = tag_map(v@);
    let mut j: usize = 0;
    assert(anns@.subrange(0, 0) =~= Seq::<(String, TripleTag)>::empty());
    while j < anns.len()
        invariant
            j <= anns@.len(),
            keys_distinct(v@),
            tag_map(v@) == annot_set(start, anns@.subrange(0, j as int)),
        decreases anns@.len() - j,
    {
        let name = &anns[j].0;
        let t = anns[j].1.copy();
        match find_key(v, name.as_str()) {
            Some(i) => {
                proof {
                    lemma_tag_map_at(v@, i as int);
                }
                let mut cur = v[i].1.copy();
                cur.set_specified_info(t);
                upsert_tag(v, name, cur);
            },
            None => {
                upsert_tag(v, name, t);
            },
        }
        proof {
            let pre = anns@.subrange(0, j + 1);
            assert(pre.drop_last() =~= anns@.subrange(0, j as int));
            assert(pre.last() == anns@[j as int]);
        }
        j += 1;
    }
    assert(anns@.subrange(0, anns@.len() as int) =~= anns@);
}

impl TagAnalysis {
    /// Moves the fact forwards over one statement.
    pub fn transfer_stmt(&mut self, stmt: &HirBody)
        requires
            old(self).wf(),
            tag_stmt_ok(*old(self), *stmt),
        ensures
            final(self).wf(),
            final(self).tags() == tag_step(*old(self), *stmt),
            final(self).overrides() == overrides_step(*old(self), *stmt),
            final(self).same_setting(*old(self)),
    {
        match stmt {
            HirBody::ConstDecl { lhs, lhs_tag, rhs, .. } => {
                let mut info = lhs_tag.copy();
                if let SchedTerm::Var { name, .. } = rhs {
                    if let Some(i) = find_key(&self.tags, name.as_str()) {
                        proof {
                            lemma_tag_map_at(self.tags@, i as int);
                        }
                        info.value = copy_tag(&self.tags[i].1.value);
                    }
                }
                let (is_ref, _) = self.type_of(lhs);
                let st = contains_name(&self.storage, lhs);
                upsert_tag(&mut self.tags, lhs, override_none_usable(info, is_ref, st));
            },
            HirBody::VarDecl { lhs, lhs_tag, rhs, .. } => {
                let mut info = lhs_tag.copy();
                match rhs {
                    None => {
                        info.value = make_none_tag(SpecType::Value, Flow::Dead);
                    },
                    Some(r) => {
                        if let SchedTerm::Var { name, .. } = r {
                            if let Some(i) = find_key(&self.tags, name.as_str()) {
                                proof {
                                    lemma_tag_map_at(self.tags@, i as int);
                                }
                                info.value = copy_tag(&self.tags[i].1.value);
                            }
                        }
                    },
                }
                if info.spatial.flow.is_none() {
                    info.spatial.flow = Some(Flow::Save);
                }
                if info.spatial.quot.is_none() {
                    info.spatial.quot = Some(Quotient::Nil);
                }
                let (is_ref, _) = self.type_of(lhs);
                let st = contains_name(&self.storage, lhs);
                upsert_tag(&mut self.tags, lhs, override_none_usable(info, is_ref, st));
            },
            HirBody::RefStore { lhs, lhs_tags, rhs, .. } => {
                let i = match find_key(&self.tags, lhs.as_str()) {
                    Some(i) => i,
                    None => {
                        proof {
                            assert(false);
                        }
                        0
                    },
                };
                proof {
                    lemma_tag_map_at(self.tags@, i as int);
                }
                let mut t = self.tags[i].1.copy();
                t.set_specified_info(lhs_tags.copy());
                let ghost t1 = t;
                upsert_tag(&mut self.tags, lhs, t);
                if let SchedTerm::Var { name, .. } = rhs {
                    if let Some(j) = find_key(&self.tags, name.as_str()) {
                        proof {
                            lemma_tag_map_at(self.tags@, j as int);
                        }
                        let v = copy_tag(&self.tags[j].1.value);
                        let k = match find_key(&self.tags, lhs.as_str()) {
                            Some(k) => k,
                            None => {
                                proof {
                                    assert(self.tags().contains_key(lhs@));
                                    assert(false);
                                }
                                0
                            },
                        };
                        proof {
                            lemma_tag_map_at(self.tags@, k as int);
                        }
                        let mut t2 = self.tags[k].1.copy();
                        t2.value = v;
                        upsert_tag(&mut self.tags, lhs, t2);
                    }
                }
            },
            HirBody::RefLoad { dest, src, .. } => {
                let mut tag = match find_key(&self.tags, src.as_str()) {
                    Some(i) => {
                        proof {
                            lemma_tag_map_at(self.tags@, i as int);
                        }
                        self.tags[i].1.copy()
                    },
                    None => match find_key(&self.input_overrides, src.as_str()) {
                        Some(i) => {
                            proof {
                                lemma_tag_map_at(self.input_overrides@, i as int);
                            }
                            self.input_overrides[i].1.copy()
                        },
                        None => {
                            proof {
                                assert(false);
                            }
                            TripleTag::new_none_usable()
                        },
                    },
                };
                if let Some(Flow::Save) = tag.spatial.flow {
                    tag.spatial.flow = Some(Flow::Usable);
                }
                let (is_ref, _) = self.type_of(dest);
                let st = contains_name(&self.storage, dest);
                upsert_tag(&mut self.tags, dest, override_none_usable(tag, is_ref, st));
            },
            HirBody::Op { dest, dest_tag, .. } => {
                let (is_ref, _) = self.type_of(dest);
                let st = contains_name(&self.storage, dest);
                upsert_tag(&mut self.tags, dest, override_none_usable(dest_tag.copy(), is_ref, st));
            },
            HirBody::OutAnnotation(_, anns) => {
                apply_annotations(&mut self.tags, anns);
            },
            HirBody::InAnnotation(_, anns) => {
                apply_annotations(&mut self.input_overrides, anns);
                apply_annotations(&mut self.tags, anns);
            },
            _ => {},
        }
    }
}

/// Different dimension numbers name different arguments.
pub proof fn lemma_dim_var_injective(a: nat, b: nat)
    requires
        dim_var(a) == dim_var(b),
    ensures
        a == b,
{
    reveal_strlit("_dim");
    assert(dim_var(a).subrange(4, dim_var(a).len() as int) =~= decimal(a));
    assert(dim_var(b).subrange(4, dim_var(b).len() as int) =~= decimal(b));
    lemma_decimal_injective(a, b);
}

/// The name of the `i`-th dimension argument.
pub fn dim_var_name(i: usize) -> (res: String)
    ensures
        res@ == dim_var(i as nat),
{
    let mut s = text_of("_dim");
    let d = usize_to_text(i);
    s.append(d.as_str());
    s
}

/// `t` are the tags of the `i`-th dimension argument: `none()-usable`, but for
/// an input quotient of the value spec on that argument.
pub open spec fn is_dim_tag(t: TripleTag, i: nat) -> bool {
    &&& t.value.quot == Some(Quotient::Input)
    &&& t.value.quot_var.spec_type == SpecType::Value
    &&& t.value.quot_var.spec_var matches Some(v) && v@ == dim_var(i)
    &&& t.value.flow == Some(Flow::Usable)
    &&& t.spatial == none_tag(SpecType::Spatial, Flow::Usable)
    &&& t.timeline == none_tag(SpecType::Timeline, Flow::Usable)
}

/// The tags the last entry for `k` in `s` gives, if any.
pub open spec fn last_tag(s: Seq<(String, TripleTag)>, k: Seq<char>) -> Option<TripleTag>
    decreases s.len(),
{
    if s.len() == 0 {
        None
    } else if s.last().0@ == k {
        Some(s.last().1)
    } else {
        last_tag(s.drop_last(), k)
    }
}

/// The tags of an input argument declared with tags `t`: its unknown parts are
/// filled as for any definition (a reference's spatial tag with `none()-save`),
/// and a value tag without a quotient gets the input quotient.
pub open spec fn input_tag(t: TripleTag, is_ref: bool, storage: bool) -> TripleTag {
    let tg = if is_ref {
        with_spatial(t, with_unknown_filled(t.spatial, none_tag(SpecType::Spatial, Flow::Save)))
    } else {
        t
    };
    let f = none_usable_filled(tg, is_ref, storage);
    if f.value.quot is None {
        with_value(f, Tag { quot: Some(Quotient::Input), quot_var: f.value.quot_var, flow: f.value.flow })
    } else {
        f
    }
}

/// Whether some declaration in `dt` names `k`, and whether one gives it a reference type.
pub open spec fn dt_declares(dt: Seq<(String, DataType)>, k: Seq<char>) -> bool {
    exists|i: int| 0 <= i < dt.len() && #[trigger] dt[i].0@ == k
}

/// Whether some declaration in `dt` gives `k` a reference type.
pub open spec fn dt_ref(dt: Seq<(String, DataType)>, k: Seq<char>) -> bool {
    exists|i: int| 0 <= i < dt.len() && #[trigger] dt[i].0@ == k && dt[i].1 is Ref
}

impl TagAnalysis {
    /// The tags of the return values still to be added at the final block.
    pub closed spec fn ret_tags(&self) -> Option<Seq<(String, TripleTag)>> {
        match self.out_tags {
            Some(v) => Some(v@),
            None => None,
        }
    }

    /// The fact at the entry of the function. The inputs get their declared tags
    /// (see `input_tag`), and each of the first `num_dims` dimension arguments
    /// `_dim{i}` gets an input quotient; the tags `out` are kept for the return
    /// values `_out{i}`. `data_types` gives the type of each variable, and
    /// `storage` lists the variables whose buffers are storage buffers.
    pub fn top(
        input: &Vec<(String, TripleTag)>,
        out: &Vec<TripleTag>,
        data_types: Vec<(String, DataType)>,
        storage: Vec<String>,
        num_dims: usize,
    ) -> (res: Self)
        requires
            forall|i: int| 0 <= i < input@.len() ==> dt_declares(data_types@, (#[trigger] input@[i]).0@),
            forall|i: int|
                0 <= i < input@.len() && dt_ref(data_types@, (#[trigger] input@[i]).0@) ==> input@[i].1.spatial.flow is None
                    || input@[i].1.spatial.flow == Some(Flow::Save),
        ensures
            res.wf(),
            res.overrides() == Map::<Seq<char>, TripleTag>::empty(),
            forall|k: Seq<char>| #[trigger] res.declared(k) == dt_declares(data_types@, k),
            forall|k: Seq<char>| #[trigger] res.is_ref(k) == dt_ref(data_types@, k),
            forall|k: Seq<char>| #[trigger] res.storage(k) == names_of(storage@).contains(k),
            forall|k: Seq<char>|
                #[trigger] res.tags().contains_key(k) <==> (last_tag(input@, k) is Some || exists|i: nat|
                    i < num_dims && k == #[trigger] dim_var(i)),
            forall|k: Seq<char>|
                #[trigger] last_tag(input@, k) is Some ==> res.tags()[k] == input_tag(
                    last_tag(input@, k)->0,
                    res.is_ref(k),
                    res.storage(k),
                ),
            forall|i: nat| i < num_dims && last_tag(input@, dim_var(i)) is None ==> is_dim_tag(res.tags()[#[trigger] dim_var(i)], i),
            res.ret_tags() matches Some(r) && r.len() == out@.len() && forall|i: int|
                0 <= i < out@.len() ==> (#[trigger] r[i]).0@ == ret_var(i as nat) && r[i].1 == out@[i],
    {
        let mut res = TagAnalysis {
            tags: Vec::new(),
            input_overrides: Vec::new(),
            data_types,
            storage,
            out_tags: None,
            block: None,
        };
        assert(res.overrides() =~= Map::<Seq<char>, TripleTag>::empty());
        let mut i: usize = 0;
        while i < num_dims
            invariant
                i <= num_dims,
                keys_distinct(res.tags@),
                keys_distinct(res.input_overrides@),
                res.input_overrides@.len() == 0,
                res.data_types@ == data_types@,
                res.storage@ == storage@,
                res.out_tags is None,
                forall|k: Seq<char>| #[trigger] res.tags().contains_key(k) <==> exists|j: nat| j < i && k == #[trigger] dim_var(j),
                forall|j: nat| j < i ==> is_dim_tag(res.tags()[#[trigger] dim_var(j)], j),
            decreases num_dims - i,
        {
            let name = dim_var_name(i);
            let mut t = TripleTag::new_none_usable();
            t.value.quot = Some(Quotient::Input);
            t.value.quot_var.spec_var = Some(dim_var_name(i));
            let ghost m0 = res.tags();
            upsert_tag(&mut res.tags, &name, t);
            proof {
                assert(res.tags() == m0.insert(dim_var(i as nat), t));
                assert forall|k: Seq<char>| #[trigger] res.tags().contains_key(k) <==> exists|j: nat| j < i + 1 && k == #[trigger] dim_var(j) by {
                    if k == dim_var(i as nat) {
                        assert(exists|j: nat| j < i + 1 && k == #[trigger] dim_var(j));
                    } else if m0.contains_key(k) {
                        let j0 = choose|j: nat| j < i && k == #[trigger] dim_var(j);
                        assert(j0 < i + 1 && k == dim_var(j0));
                    }
                    if exists|j: nat| j < i + 1 && k == #[trigger] dim_var(j) {
                        let j = choose|j: nat| j < i + 1 && k == #[trigger] dim_var(j);
                        if j < i {
                            assert(exists|j2: nat| j2 < i && k == #[trigger] dim_var(j2));
                        }
                    }
                }
                assert forall|j: nat| j < i + 1 implies is_dim_tag(res.tags()[#[trigger] dim_var(j)], j) by {
                    if j < i {
                        if dim_var(j) == dim_var(i as nat) {
                            lemma_dim_var_injective(j, i as nat);
                        }
                    }
                }
            }
            i += 1;
        }
        let mut j: usize = 0;
        assert(input@.subrange(0, 0) =~= Seq::<(String, TripleTag)>::empty());
        while j < input.len()
            invariant
                j <= input@.len(),
                keys_distinct(res.tags@),
                keys_distinct(res.input_overrides@),
                res.input_overrides@.len() == 0,
                res.data_types@ == data_types@,
                res.storage@ == storage@,
                res.out_tags is None,
                forall|i2: int| 0 <= i2 < input@.len() ==> dt_declares(data_types@, (#[trigger] input@[i2]).0@),
                forall|i2: int|
                    0 <= i2 < input@.len() && dt_ref(data_types@, (#[trigger] input@[i2]).0@) ==> input@[i2].1.spatial.flow is None
                        || input@[i2].1.spatial.flow == Some(Flow::Save),
                forall|k: Seq<char>|
                    #[trigger] res.tags().contains_key(k) <==> (last_tag(input@.subrange(0, j as int), k) is Some || exists|d: nat|
                        d < num_dims && k == #[trigger] dim_var(d)),
                forall|k: Seq<char>|
                    #[trigger] last_tag(input@.subrange(0, j as int), k) is Some ==> res.tags()[k] == input_tag(
                        last_tag(input@.subrange(0, j as int), k)->0,
                        dt_ref(data_types@, k),
                        names_of(storage@).contains(k),
                    ),
                forall|d: nat| d < num_dims && last_tag(input@.subrange(0, j as int), dim_var(d)) is None ==> is_dim_tag(res.tags()[#[trigger] dim_var(d)], d),
            decreases input@.len() - j,
        {
            let arg = &input[j].0;
            let mut tg = input[j].1.copy();
            let (is_ref, _) = res.type_of(arg);
            if is_ref {
                tg.spatial.override_unknown_info(make_none_tag(SpecType::Spatial, Flow::Save));
            }
            let st = contains_name(&res.storage, arg);
            let mut in_tg = override_none_usable(tg, is_ref, st);
            if in_tg.value.quot.is_none() {
                in_tg.value.quot = Some(Quotient::Input);
            }
            let ghost m0 = res.tags();
            let ghost t_new = in_tg;
            proof {
                assert(dt_ref(data_types@, arg@) == is_ref);
                assert(t_new == input_tag(input@[j as int].1, dt_ref(data_types@, arg@), names_of(storage@).contains(arg@)));
            }
            upsert_tag(&mut res.tags, arg, in_tg);
            proof {
                let lo = input@.subrange(0, j as int);
                let hi = input@.subrange(0, j + 1);
                assert(hi.drop_last() =~= lo);
                assert(hi.last() == input@[j as int]);
                assert(res.tags() == m0.insert(arg@, t_new));
                assert forall|k: Seq<char>| #[trigger] last_tag(hi, k) is Some implies res.tags()[k] == input_tag(
                    last_tag(hi, k)->0,
                    dt_ref(data_types@, k),
                    names_of(storage@).contains(k),
                ) by {
                    if k != arg@ {
                        assert(last_tag(hi, k) == last_tag(lo, k));
                    }
                }
                assert forall|k: Seq<char>| #[trigger] res.tags().contains_key(k) <==> (last_tag(hi, k) is Some || exists|d: nat|
                    d < num_dims && k == #[trigger] dim_var(d)) by {
                    if k != arg@ {
                        assert(last_tag(hi, k) == last_tag(lo, k));
                    }
                }
                assert forall|d: nat| d < num_dims && last_tag(hi, dim_var(d)) is None implies is_dim_tag(res.tags()[#[trigger] dim_var(d)], d) by {
                    assert(dim_var(d) != arg@);
                    assert(last_tag(hi, dim_var(d)) == last_tag(lo, dim_var(d)));
                }
            }
            j += 1;
        }
        assert(input@.subrange(0, input@.len() as int) =~= input@);
        let mut outs: Vec<(String, TripleTag)> = Vec::new();
        let mut k: usize = 0;
        while k < out.len()
            invariant
                k <= out@.len(),
                outs@.len() == k,
                forall|i2: int| 0 <= i2 < k ==> (#[trigger] outs@[i2]).0@ == ret_var(i2 as nat) && outs@[i2].1 == out@[i2],
            decreases out@.len() - k,
        {
            outs.push((ret_var_name(k), out[k].copy()));
            k += 1;
        }
        res.out_tags = Some(outs);
        res
    }
}

impl TagAnalysis {
    /// The block the fact was last moved into, if any.
    pub closed spec fn current_block(&self) -> Option<usize> {
        self.block
    }

    /// Prepares the fact for an instruction of block `block_id`. At the final
    /// block the tags of the return values are set (once); entering a block
    /// other than the current one drops the input overrides.
    pub fn special_process_block(&mut self, block_id: usize)
        requires
            old(self).wf(),
        ensures
            final(self).wf(),
            final(self).tags() == if block_id == FINAL_BLOCK_ID && old(self).ret_tags() is Some {
                annot_set(old(self).tags(), old(self).ret_tags()->0)
            } else {
                old(self).tags()
            },
            final(self).ret_tags() == if block_id == FINAL_BLOCK_ID {
                None
            } else {
                old(self).ret_tags()
            },
            final(self).overrides() == if old(self).current_block() == Some(block_id) {
                old(self).overrides()
            } else {
                Map::<Seq<char>, TripleTag>::empty()
            },
            final(self).current_block() == Some(block_id),
            forall|k: Seq<char>| #[trigger] final(self).declared(k) == old(self).declared(k)
                && final(self).is_ref(k) == old(self).is_ref(k) && final(self).storage(k) == old(self).storage(k),
    {
        if block_id == FINAL_BLOCK_ID {
            let out_tags = self.out_tags.take();
            if let Some(out) = out_tags {
                apply_annotations(&mut self.tags, &out);
            }
        }
        let same = match self.block {
            Some(b) => b == block_id,
            None => false,
        };
        if !same {
            self.input_overrides = Vec::new();
            assert(self.overrides() =~= Map::<Seq<char>, TripleTag>::empty());
            self.block = Some(block_id);
        }
        assert(self.data_types@ == old(self).data_types@);
        assert(self.storage@ == old(self).storage@);
        assert forall|k: Seq<char>| #[trigger] self.declared(k) == old(self).declared(k)
            && self.is_ref(k) == old(self).is_ref(k) && self.storage(k) == old(self).storage(k) by {}
    }
}

/// The tags after defining each destination of `ds` in turn, with its tags'
/// unknown parts filled (see `none_usable_filled`).
pub open spec fn dests_set(a: TagAnalysis, m: Map<Seq<char>, TripleTag>, ds: Seq<(String, TripleTag)>) -> Map<Seq<char>, TripleTag>
    decreases ds.len(),
{
    if ds.len() == 0 {
        m
    } else {
        let d = ds.last();
        dests_set(a, m, ds.drop_last()).insert(d.0@, none_usable_filled(d.1, a.is_ref(d.0@), a.storage(d.0@)))
    }
}

/// The tags after a return assigns each returned variable `rets[i]` to the
/// destination `ds[i]` in turn: the destination takes the tags of the returned
/// variable, with unknown parts filled.
pub open spec fn returns_set(
    a: TagAnalysis,
    m: Map<Seq<char>, TripleTag>,
    ds: Seq<(String, TripleTag)>,
    rets: Seq<String>,
) -> Map<Seq<char>, TripleTag>
    decreases ds.len(),
{
    if ds.len() == 0 || rets.len() == 0 {
        m
    } else {
        let m1 = returns_set(a, m, ds.drop_last(), rets.drop_last());
        let d = ds.last().0@;
        let r = rets.last()@;
        m1.insert(d, none_usable_filled(m1[r], a.is_ref(d), a.storage(r)))
    }
}

/// Every returned variable has tags when it is assigned.
pub open spec fn returns_ok(a: TagAnalysis, m: Map<Seq<char>, TripleTag>, ds: Seq<(String, TripleTag)>, rets: Seq<String>) -> bool
    decreases ds.len(),
{
    if ds.len() == 0 || rets.len() == 0 {
        true
    } else {
        returns_ok(a, m, ds.drop_last(), rets.drop_last()) && returns_set(a, m, ds.drop_last(), rets.drop_last()).contains_key(
            rets.last()@,
        )
    }
}

/// A quotient that is an input quotient becomes a node quotient.
pub open spec fn input_to_node_tag(t: Tag) -> Tag {
    Tag {
        quot: if t.quot == Some(Quotient::Input) { Some(Quotient::Node) } else { t.quot },
        quot_var: t.quot_var,
        flow: t.flow,
    }
}

/// All input quotients of `t` become node quotients.
pub open spec fn input_to_node(t: TripleTag) -> TripleTag {
    TripleTag {
        value: input_to_node_tag(t.value),
        spatial: input_to_node_tag(t.spatial),
        timeline: input_to_node_tag(t.timeline),
    }
}

/// The tags after terminator `t` of block `block_id`, given the fact `a` before
/// it. The end of the start block turns every input quotient into a node
/// quotient.
pub open spec fn tail_step(a: TagAnalysis, t: Terminator, block_id: usize) -> Map<Seq<char>, TripleTag> {
    let m = match t {
        Terminator::Select { dests, .. } => dests_set(a, a.tags(), dests@),
        Terminator::CaptureCall { dests, .. } => dests_set(a, a.tags(), dests@),
        Terminator::Return { dests, rets } => returns_set(a, a.tags(), dests@, rets@),
        _ => a.tags(),
    };
    if block_id == START_BLOCK_ID {
        m.map_values(|x: TripleTag| input_to_node(x))
    } else {
        m
    }
}

/// The terminator after tag analysis: the unknown parts of a select's tags and
/// of a capturing call's tags are `none()-usable`.
pub open spec fn tail_tagged(t: Terminator) -> Terminator {
    match t {
        Terminator::Select { dests, guard, tag } => Terminator::Select { dests, guard, tag: triple_fill(tag, none_usable()) },
        Terminator::CaptureCall { dests, call, captures } => Terminator::CaptureCall {
            dests,
            call: crate::hir::HirFuncCall { target: call.target, args: call.args, tag: triple_fill(call.tag, none_usable()) },
            captures,
        },
        _ => t,
    }
}

/// The terminator can be analyzed from the fact `a`: it is no plain call (calls
/// capture their variables by now), every destination has a declared type, the
/// captured variables have tags, and a return returns as many variables as it
/// has destinations, each with tags.
pub open spec fn tag_tail_ok(a: TagAnalysis, t: Terminator) -> bool {
    match t {
        Terminator::Call(..) => false,
        Terminator::Select { dests, .. } => forall|i: int| 0 <= i < dests@.len() ==> a.declared((#[trigger] dests@[i]).0@),
        Terminator::CaptureCall { dests, captures, .. } => (forall|i: int| 0 <= i < dests@.len() ==> a.declared((#[trigger] dests@[i]).0@))
            && forall|i: int| 0 <= i < captures@.len() ==> dests_set(a, a.tags(), dests@).contains_key((#[trigger] captures@[i])@),
        Terminator::Return { dests, rets } => dests@.len() == rets@.len() && (forall|i: int| 0 <= i < dests@.len() ==> a.declared((#[trigger] dests@[i]).0@))
            && returns_ok(a, a.tags(), dests@, rets@),
        _ => true,
    }
}

impl TagAnalysis {
    /// Defines each destination of `ds` in turn (see `dests_set`).
    fn set_dests(&mut self, ds: &Vec<(String, TripleTag)>)
        requires
            old(self).wf(),
        ensures
            final(self).wf(),
            final(self).same_setting(*old(self)),
            final(self).overrides() == old(self).overrides(),
            final(self).tags() == dests_set(*old(self), old(self).tags(), ds@),
    {
        let ghost a = *self;
        let mut i: usize = 0;
        assert(ds@.subrange(0, 0) =~= Seq::<(String, TripleTag)>::empty());
        while i < ds.len()
            invariant
                i <= ds@.len(),
                self.wf(),
                self.same_setting(a),
                self.overrides() == a.overrides(),
                self.tags() == dests_set(a, a.tags(), ds@.subrange(0, i as int)),
            decreases ds@.len() - i,
        {
            let (is_ref, _) = self.type_of(&ds[i].0);
            let st = contains_name(&self.storage, &ds[i].0);
            proof {
                self.lemma_same_setting(a);
            }
            upsert_tag(&mut self.tags, &ds[i].0, override_none_usable(ds[i].1.copy(), is_ref, st));
            proof {
                let pre = ds@.subrange(0, i + 1);
                assert(pre.drop_last() =~= ds@.subrange(0, i as int));
                assert(pre.last() == ds@[i as int]);
            }
            i += 1;
        }
        assert(ds@.subrange(0, ds@.len() as int) =~= ds@);
    }

    /// Turns every input quotient into a node quotient.
    fn inputs_to_nodes(&mut self)
        requires
            old(self).wf(),
        ensures
            final(self).wf(),
            final(self).same_setting(*old(self)),
            final(self).overrides() == old(self).overrides(),
            final(self).tags() == old(self).tags().map_values(|x: TripleTag| input_to_node(x)),
    {
        let ghost start = self.tags@;
        let mut i: usize = 0;
        while i < self.tags.len()
            invariant
                i <= self.tags@.len(),
                self.tags@.len() == start.len(),
                keys_distinct(start),
                keys_distinct(self.input_overrides@),
                self.same_setting(*old(self)),
                self.input_overrides@ == old(self).input_overrides@,
                start == old(self).tags@,
                forall|j: int| 0 <= j < self.tags@.len() ==> (#[trigger] self.tags@[j]).0@ == start[j].0@,
                forall|j: int| 0 <= j < i ==> (#[trigger] self.tags@[j]).1 == input_to_node(start[j].1),
                forall|j: int| i <= j < self.tags@.len() ==> (#[trigger] self.tags@[j]).1 == start[j].1,
            decreases start.len() - i,
        {
            let mut t = self.tags[i].1.copy();
            if let Some(Quotient::Input) = t.value.quot {
                t.value.quot = Some(Quotient::Node);
            }
            if let Some(Quotient::Input) = t.spatial.quot {
                t.spatial.quot = Some(Quotient::Node);
            }
            if let Some(Quotient::Input) = t.timeline.quot {
                t.timeline.quot = Some(Quotient::Node);
            }
            let name = self.tags[i].0.clone();
            self.tags.set(i, (name, t));
            i += 1;
        }
        proof {
            let w = self.tags@;
            assert forall|a: int, b: int| 0 <= a < b < w.len() implies #[trigger] w[a].0@ != #[trigger] w[b].0@ by {
                assert(start[a].0@ != start[b].0@);
            }
            assert forall|k: Seq<char>| #[trigger] tag_map(w).contains_key(k) <==> tag_map(start).contains_key(k) by {
                if tag_map(w).contains_key(k) {
                    let j = choose|j: int| 0 <= j < w.len() && #[trigger] w[j].0@ == k;
                    assert(start[j].0@ == k);
                }
                if tag_map(start).contains_key(k) {
                    let j = choose|j: int| 0 <= j < start.len() && #[trigger] start[j].0@ == k;
                    assert(w[j].0@ == k);
                }
            }
            assert forall|k: Seq<char>| #[trigger] tag_map(w).contains_key(k) implies tag_map(w)[k] == input_to_node(tag_map(start)[k]) by {
                let j = choose|j: int| 0 <= j < w.len() && #[trigger] w[j].0@ == k;
                lemma_tag_map_at(w, j);
                lemma_tag_map_at(start, j);
            }
            assert(tag_map(w) =~= tag_map(start).map_values(|x: TripleTag| input_to_node(x)));
        }
    }

    /// Moves the fact forwards over the terminator of block `block_id`. The
    /// unknown parts of a select's tags and of a capturing call's tags become
    /// `none()-usable`.
    pub fn transfer_tail(&mut self, tail: &mut Terminator, block_id: usize)
        requires
            old(self).wf(),
            tag_tail_ok(*old(self), *old(tail)),
        ensures
            final(self).wf(),
            final(self).same_setting(*old(self)),
            final(self).overrides() == old(self).overrides(),
            final(self).tags() == tail_step(*old(self), *old(tail), block_id),
            *final(tail) == tail_tagged(*old(tail)),
    {
        let ghost a = *self;
        match tail {
            Terminator::Select { dests, tag, .. } => {
                tag.override_unknown_info(TripleTag::new_none_usable());
                self.set_dests(dests);
            },
            Terminator::CaptureCall { dests, call, .. } => {
                call.tag.override_unknown_info(TripleTag::new_none_usable());
                self.set_dests(dests);
            },
            Terminator::Return { dests, rets } => {
                let mut i: usize = 0;
                assert(dests@.subrange(0, 0) =~= Seq::<(String, TripleTag)>::empty());
                while i < dests.len()
                    invariant
                        i <= dests@.len(),
                        dests@.len() == rets@.len(),
                        self.wf(),
                        self.same_setting(a),
                        self.overrides() == a.overrides(),
                        returns_ok(a, a.tags(), dests@, rets@),
                        self.tags() == returns_set(a, a.tags(), dests@.subrange(0, i as int), rets@.subrange(0, i as int)),
                    decreases dests@.len() - i,
                {
                    proof {
                        self.lemma_same_setting(a);
                        let dp = dests@.subrange(0, i + 1);
                        let rp = rets@.subrange(0, i + 1);
                        assert(dp.drop_last() =~= dests@.subrange(0, i as int));
                        assert(rp.drop_last() =~= rets@.subrange(0, i as int));
                        assert(dp.last() == dests@[i as int]);
                        assert(rp.last() == rets@[i as int]);
                        lemma_returns_ok_prefix(a, a.tags(), dests@, rets@, i + 1);
                    }
                    let t = match find_key(&self.tags, rets[i].as_str()) {
                        Some(k) => {
                            proof {
                                lemma_tag_map_at(self.tags@, k as int);
                            }
                            self.tags[k].1.copy()
                        },
                        None => {
                            proof {
                                assert(false);
                            }
                            TripleTag::new_none_usable()
                        },
                    };
                    let (is_ref, _) = self.type_of(&dests[i].0);
                    let st = contains_name(&self.storage, &rets[i]);
                    upsert_tag(&mut self.tags, &dests[i].0, override_none_usable(t, is_ref, st));
                    i += 1;
                }
                assert(dests@.subrange(0, dests@.len() as int) =~= dests@);
                assert(rets@.subrange(0, rets@.len() as int) =~= rets@);
            },
            _ => {},
        }
        if block_id == START_BLOCK_ID {
            self.inputs_to_nodes();
        }
    }
}

/// What holds of a return's assignments holds of each prefix of them.
pub proof fn lemma_returns_ok_prefix(
    a: TagAnalysis,
    m: Map<Seq<char>, TripleTag>,
    ds: Seq<(String, TripleTag)>,
    rets: Seq<String>,
    n: int,
)
    requires
        returns_ok(a, m, ds, rets),
        ds.len() == rets.len(),
        0 < n <= ds.len(),
    ensures
        returns_ok(a, m, ds.subrange(0, n), rets.subrange(0, n)),
        returns_set(a, m, ds.subrange(0, n - 1), rets.subrange(0, n - 1)).contains_key(rets[n - 1]@),
    decreases ds.len(),
{
    if n == ds.len() {
        assert(ds.subrange(0, n) =~= ds);
        assert(rets.subrange(0, n) =~= rets);
        assert(ds.drop_last() =~= ds.subrange(0, n - 1));
        assert(rets.drop_last() =~= rets.subrange(0, n - 1));
    } else {
        lemma_returns_ok_prefix(a, m, ds.drop_last(), rets.drop_last(), n);
        assert(ds.drop_last().subrange(0, n) =~= ds.subrange(0, n));
        assert(rets.drop_last().subrange(0, n) =~= rets.subrange(0, n));
        assert(ds.drop_last().subrange(0, n - 1) =~= ds.subrange(0, n - 1));
        assert(rets.drop_last().subrange(0, n - 1) =~= rets.subrange(0, n - 1));
        assert(rets.drop_last()[n - 1] == rets[n - 1]);
    }
}

/// Two tags disagree on a quotient or a flow that both give.
pub open spec fn part_conflict(a: Tag, b: Tag) -> bool {
    (a.quot is Some && b.quot is Some && a.quot != b.quot) || (a.flow is Some && b.flow is Some && a.flow != b.flow)
}

/// Two triples of tags disagree in one of their specs.
pub open spec fn tag_conflict(t: TripleTag, o: TripleTag) -> bool {
    part_conflict(t.value, o.value) || part_conflict(t.spatial, o.spatial) || part_conflict(t.timeline, o.timeline)
}

/// The tags of the meet of two facts: a variable with tags in both has the
/// first's, with unknown parts filled from the second's; otherwise it has the
/// tags of the fact that has any.
pub open spec fn meet_tags(m: Map<Seq<char>, TripleTag>, o: Map<Seq<char>, TripleTag>) -> Map<Seq<char>, TripleTag> {
    Map::new(
        |k: Seq<char>| m.contains_key(k) || o.contains_key(k),
        |k: Seq<char>|
            if m.contains_key(k) && o.contains_key(k) {
                triple_fill(m[k], o[k])
            } else if m.contains_key(k) {
                m[k]
            } else {
                o[k]
            },
    )
}

/// The first `n` entries of a list with distinct keys hold the map of the
/// first `n - 1` with the `n`-th added.
pub proof fn lemma_tag_map_prefix(v: Seq<(String, TripleTag)>, n: int)
    requires
        keys_distinct(v),
        0 < n <= v.len(),
    ensures
        tag_map(v.subrange(0, n)) == tag_map(v.subrange(0, n - 1)).insert(v[n - 1].0@, v[n - 1].1),
        !tag_map(v.subrange(0, n - 1)).contains_key(v[n - 1].0@),
{
    let hi = v.subrange(0, n);
    let lo = v.subrange(0, n - 1);
    assert(keys_distinct(hi) && keys_distinct(lo));
    if tag_map(lo).contains_key(v[n - 1].0@) {
        let j = choose|j: int| 0 <= j < lo.len() && #[trigger] lo[j].0@ == v[n - 1].0@;
        assert(v[j].0@ != v[n - 1].0@);
    }
    assert forall|k: Seq<char>| #[trigger] tag_map(hi).contains_key(k) <==> tag_map(lo).insert(v[n - 1].0@, v[n - 1].1).contains_key(k) by {
        if tag_map(hi).contains_key(k) {
            let j = choose|j: int| 0 <= j < hi.len() && #[trigger] hi[j].0@ == k;
            if j < n - 1 {
                assert(lo[j].0@ == k);
            }
        }
        if tag_map(lo).contains_key(k) {
            let j = choose|j: int| 0 <= j < lo.len() && #[trigger] lo[j].0@ == k;
            assert(hi[j].0@ == k);
        }
        if k == v[n - 1].0@ {
            assert(hi[n - 1].0@ == k);
        }
    }
    assert forall|k: Seq<char>| #[trigger] tag_map(hi).contains_key(k) implies tag_map(hi)[k] == tag_map(lo).insert(v[n - 1].0@, v[n - 1].1)[k] by {
        let j = choose|j: int| 0 <= j < hi.len() && #[trigger] hi[j].0@ == k;
        lemma_tag_map_at(hi, j);
        if j < n - 1 {
            lemma_tag_map_at(lo, j);
        }
    }
    assert(tag_map(hi) =~= tag_map(lo).insert(v[n - 1].0@, v[n - 1].1));
}

impl TagAnalysis {
    /// Joins the facts of two predecessors (see `meet_tags`). The two facts must
    /// not disagree on a quotient or flow of a variable both have tags for.
    pub fn meet(self, other: &Self) -> (res: Self)
        requires
            self.wf(),
            other.wf(),
            forall|k: Seq<char>|
                #[trigger] self.tags().contains_key(k) && other.tags().contains_key(k) ==> !tag_conflict(
                    self.tags()[k],
                    other.tags()[k],
                ),
        ensures
            res.wf(),
            res.tags() == meet_tags(self.tags(), other.tags()),
            res.overrides() == self.overrides(),
            res.same_setting(self),
    {
        let ghost m0 = self.tags();
        let ghost o = other.tags@;
        let mut res = self;
        let mut i: usize = 0;
        assert(tag_map(o.subrange(0, 0)) =~= Map::<Seq<char>, TripleTag>::empty());
        assert(meet_tags(m0, Map::<Seq<char>, TripleTag>::empty()) =~= m0);
        while i < other.tags.len()
            invariant
                i <= o.len(),
                o == other.tags@,
                keys_distinct(o),
                res.wf(),
                res.same_setting(self),
                res.overrides() == self.overrides(),
                res.tags() == meet_tags(m0, tag_map(o.subrange(0, i as int))),
            decreases o.len() - i,
        {
            proof {
                lemma_tag_map_prefix(o, i + 1);
            }
            let k = &other.tags[i].0;
            let v = other.tags[i].1.copy();
            let ghost before = res.tags();
            match find_key(&res.tags, k.as_str()) {
                Some(j) => {
                    proof {
                        lemma_tag_map_at(res.tags@, j as int);
                    }
                    let mut cur = res.tags[j].1.copy();
                    cur.override_unknown_info(v);
                    upsert_tag(&mut res.tags, k, cur);
                },
                None => {
                    upsert_tag(&mut res.tags, k, v);
                },
            }
            proof {
                let lo = tag_map(o.subrange(0, i as int));
                let hi = tag_map(o.subrange(0, i + 1));
                assert(hi == lo.insert(k@, o[i as int].1));
                assert(!lo.contains_key(k@));
                assert(res.tags() =~= meet_tags(m0, hi));
            }
            i += 1;
        }
        assert(o.subrange(0, o.len() as int) =~= o);
        res
    }
}

/// A constant declaration initialized from a variable with tags takes that
/// variable's value tag, its unknown parts filled with `none()-usable`.
pub proof fn law_const_decl_takes_source_value(a: TagAnalysis, stmt: HirBody)
    requires
        stmt matches HirBody::ConstDecl { rhs: SchedTerm::Var { name, .. }, .. } && a.tags().contains_key(name@),
    ensures
        tag_step(a, stmt).contains_key(stmt->ConstDecl_lhs@),
        tag_step(a, stmt)[stmt->ConstDecl_lhs@].value == with_unknown_filled(
            a.tags()[stmt->ConstDecl_rhs->Var_name@].value,
            none_tag(SpecType::Value, Flow::Usable),
        ),
{
}

/// A mutable declaration initialized from a variable with tags takes that
/// variable's value tag, its unknown parts filled with `none()-usable`, as a
/// constant declaration does.
pub proof fn law_var_decl_takes_source_value(a: TagAnalysis, stmt: HirBody)
    requires
        stmt matches HirBody::VarDecl { rhs: Some(SchedTerm::Var { name, .. }), .. } && a.tags().contains_key(name@),
    ensures
        tag_step(a, stmt).contains_key(stmt->VarDecl_lhs@),
        tag_step(a, stmt)[stmt->VarDecl_lhs@].value == with_unknown_filled(
            a.tags()[stmt->VarDecl_rhs->0->Var_name@].value,
            none_tag(SpecType::Value, Flow::Usable),
        ),
{
}

/// An operation gives its destination the tags written on it, each unknown
/// part `none()`: usable for the value and the timeline, and for the spatial
/// tag saved where the destination is a reference, usable where it is neither
/// a reference nor a storage buffer. A constant declaration does the same for
/// the spatial and timeline tags written on it.
pub proof fn law_op_takes_written_tags(a: TagAnalysis, stmt: HirBody)
    requires
        stmt is Op || stmt is ConstDecl,
    ensures
        stmt matches HirBody::Op { dest, dest_tag, .. } ==> {
            &&& tag_step(a, stmt)[dest@].value == with_unknown_filled(dest_tag.value, none_tag(SpecType::Value, Flow::Usable))
            &&& tag_step(a, stmt)[dest@].timeline == with_unknown_filled(
                dest_tag.timeline,
                none_tag(SpecType::Timeline, Flow::Usable),
            )
            &&& a.is_ref(dest@) ==> tag_step(a, stmt)[dest@].spatial == with_unknown_filled(
                dest_tag.spatial,
                none_tag(SpecType::Spatial, Flow::Save),
            )
            &&& !a.is_ref(dest@) && !a.storage(dest@) ==> tag_step(a, stmt)[dest@].spatial == with_unknown_filled(
                dest_tag.spatial,
                none_tag(SpecType::Spatial, Flow::Usable),
            )
        },
        stmt matches HirBody::ConstDecl { lhs, lhs_tag, .. } ==> {
            &&& tag_step(a, stmt)[lhs@].timeline == with_unknown_filled(
                lhs_tag.timeline,
                none_tag(SpecType::Timeline, Flow::Usable),
            )
            &&& !a.is_ref(lhs@) && !a.storage(lhs@) ==> tag_step(a, stmt)[lhs@].spatial == with_unknown_filled(
                lhs_tag.spatial,
                none_tag(SpecType::Spatial, Flow::Usable),
            )
        },
{
}

/// A mutable declaration without a value has a dead value, and a mutable
/// variable is saved unless its declaration gives another spatial flow.
pub proof fn law_var_decl_dead_and_saved(a: TagAnalysis, stmt: HirBody)
    requires
        stmt is VarDecl,
    ensures
        stmt->VarDecl_rhs is None ==> tag_step(a, stmt)[stmt->VarDecl_lhs@].value == none_tag(SpecType::Value, Flow::Dead),
        stmt->VarDecl_lhs_tag.spatial.flow is None ==> tag_step(a, stmt)[stmt->VarDecl_lhs@].spatial.flow == Some(Flow::Save),
        stmt->VarDecl_lhs_tag.spatial.flow is Some ==> tag_step(a, stmt)[stmt->VarDecl_lhs@].spatial.flow
            == stmt->VarDecl_lhs_tag.spatial.flow,
{
}

/// A load takes the tags of its source; a saved source becomes usable in the
/// destination.
pub proof fn law_load_takes_source_tags(a: TagAnalysis, stmt: HirBody)
    requires
        stmt matches HirBody::RefLoad { src, .. } && a.tags().contains_key(src@),
    ensures
        tag_step(a, stmt)[stmt->RefLoad_dest@].value == with_unknown_filled(
            a.tags()[stmt->RefLoad_src@].value,
            none_tag(SpecType::Value, Flow::Usable),
        ),
        a.tags()[stmt->RefLoad_src@].spatial.flow == Some(Flow::Save) ==> tag_step(a, stmt)[stmt->RefLoad_dest@].spatial.flow
            == Some(Flow::Usable),
{
}

/// A store of a variable with tags into another variable gives the target the
/// stored variable's value tag.
pub proof fn law_store_takes_source_value(a: TagAnalysis, stmt: HirBody)
    requires
        stmt matches HirBody::RefStore { lhs, rhs: SchedTerm::Var { name, .. }, .. } && a.tags().contains_key(lhs@)
            && a.tags().contains_key(name@) && name@ != lhs@,
    ensures
        tag_step(a, stmt)[stmt->RefStore_lhs@].value == a.tags()[stmt->RefStore_rhs->Var_name@].value,
{
}

/// A statement changes the tags of no variable but the one it defines or
/// stores to (annotations aside, which change the variables they name).
pub proof fn law_stmt_changes_only_its_target(a: TagAnalysis, stmt: HirBody, k: Seq<char>)
    requires
        a.tags().contains_key(k),
        match stmt {
            HirBody::ConstDecl { lhs, .. } => lhs@ != k,
            HirBody::VarDecl { lhs, .. } => lhs@ != k,
            HirBody::RefLoad { dest, .. } => dest@ != k,
            HirBody::Op { dest, .. } => dest@ != k,
            HirBody::RefStore { lhs, .. } => lhs@ != k,
            HirBody::InAnnotation(..) => false,
            HirBody::OutAnnotation(..) => false,
            _ => true,
        },
    ensures
        tag_step(a, stmt).contains_key(k),
        tag_step(a, stmt)[k] == a.tags()[k],
{
}

/// An annotation of a variable with tags sets the parts the annotation gives
/// and keeps the others; an annotation of a variable without tags gives it the
/// annotation's tags. An input annotation also records the override.
pub proof fn law_annotation_sets_given_parts(a: TagAnalysis, stmt: HirBody)
    requires
        (stmt matches HirBody::OutAnnotation(_, anns) && anns@.len() == 1)
            || (stmt matches HirBody::InAnnotation(_, anns) && anns@.len() == 1),
    ensures
        ({
            let anns = match stmt {
                HirBody::OutAnnotation(_, anns) => anns@,
                HirBody::InAnnotation(_, anns) => anns@,
                _ => Seq::empty(),
            };
            let v = anns[0].0@;
            let t = anns[0].1;
            &&& tag_step(a, stmt).contains_key(v)
            &&& a.tags().contains_key(v) ==> tag_step(a, stmt)[v] == TripleTag {
                value: with_specified(a.tags()[v].value, t.value),
                spatial: with_specified(a.tags()[v].spatial, t.spatial),
                timeline: with_specified(a.tags()[v].timeline, t.timeline),
            }
            &&& !a.tags().contains_key(v) ==> tag_step(a, stmt)[v] == t
            &&& forall|k: Seq<char>| k != v ==> #[trigger] tag_step(a, stmt).contains_key(k) == a.tags().contains_key(k)
            &&& stmt is InAnnotation ==> overrides_step(a, stmt).contains_key(v)
        }),
{
    let anns = match stmt {
        HirBody::OutAnnotation(_, anns) => anns@,
        HirBody::InAnnotation(_, anns) => anns@,
        _ => Seq::empty(),
    };
    assert(anns.drop_last() =~= Seq::<(String, TripleTag)>::empty());
    assert(annot_set(a.tags(), anns.drop_last()) == a.tags());
    assert(annot_set(a.overrides(), anns.drop_last()) == a.overrides());
    assert(tag_step(a, stmt) == annot_set(a.tags(), anns));
}

/// At the end of the start block no tag is left with an input quotient; other
/// blocks' terminators keep the quotients they find.
pub proof fn law_start_block_end_has_no_inputs(a: TagAnalysis, t: Terminator, k: Seq<char>)
    requires
        tail_step(a, t, START_BLOCK_ID).contains_key(k),
    ensures
        tail_step(a, t, START_BLOCK_ID)[k].value.quot != Some(Quotient::Input),
        tail_step(a, t, START_BLOCK_ID)[k].spatial.quot != Some(Quotient::Input),
        tail_step(a, t, START_BLOCK_ID)[k].timeline.quot != Some(Quotient::Input),
{
}

/// A return gives its destination the tags of the returned variable, their
/// unknown parts filled; a select gives each destination its own tags, filled.
pub proof fn law_tail_destination_tags(a: TagAnalysis, t: Terminator, b: usize)
    requires
        b != START_BLOCK_ID,
        (t matches Terminator::Return { dests, rets } && dests@.len() == 1 && rets@.len() == 1
            && a.tags().contains_key(rets@[0]@))
            || (t matches Terminator::Select { dests, .. } && dests@.len() == 1),
    ensures
        (t matches Terminator::Return { dests, rets } ==> tail_step(a, t, b)[dests@[0].0@] == none_usable_filled(
            a.tags()[rets@[0]@],
            a.is_ref(dests@[0].0@),
            a.storage(rets@[0]@),
        )),
        (t matches Terminator::Select { dests, .. } ==> tail_step(a, t, b)[dests@[0].0@] == none_usable_filled(
            dests@[0].1,
            a.is_ref(dests@[0].0@),
            a.storage(dests@[0].0@),
        )),
{
    match t {
        Terminator::Return { dests, rets } => {
            assert(dests@.drop_last() =~= Seq::<(String, TripleTag)>::empty());
            assert(rets@.drop_last() =~= Seq::<String>::empty());
            assert(returns_set(a, a.tags(), dests@.drop_last(), rets@.drop_last()) == a.tags());
            assert(dests@.last() == dests@[0]);
            assert(rets@.last() == rets@[0]);
        },
        Terminator::Select { dests, .. } => {
            assert(dests@.drop_last() =~= Seq::<(String, TripleTag)>::empty());
        },
        _ => {},
    }
}

/// The meet of two facts has tags for every variable either has; a variable
/// only one has keeps its tags, and a variable both have keeps every part the
/// first gives. Meeting a fact with itself changes nothing.
pub proof fn law_meet_tags(m: Map<Seq<char>, TripleTag>, o: Map<Seq<char>, TripleTag>, k: Seq<char>)
    ensures
        meet_tags(m, o).contains_key(k) == (m.contains_key(k) || o.contains_key(k)),
        m.contains_key(k) && !o.contains_key(k) ==> meet_tags(m, o)[k] == m[k],
        !m.contains_key(k) && o.contains_key(k) ==> meet_tags(m, o)[k] == o[k],
        m.contains_key(k) && o.contains_key(k) && m[k].value.quot is Some ==> meet_tags(m, o)[k].value.quot == m[k].value.quot,
        m.contains_key(k) && o.contains_key(k) && m[k].value.quot is None ==> meet_tags(m, o)[k].value.quot == o[k].value.quot,
        m.contains_key(k) && o.contains_key(k) && m[k].value.flow is Some ==> meet_tags(m, o)[k].value.flow == m[k].value.flow,
        m.contains_key(k) && o.contains_key(k) && m[k].value.flow is None ==> meet_tags(m, o)[k].value.flow == o[k].value.flow,
        meet_tags(m, m) == m,
{
    assert(meet_tags(m, m) =~= m);
}

} // verus!
