//! The content catalog of a practice scheme: categories and confusable sets
//! of zigen (character-root) groups, and the curation steps that populate
//! confusable sets and order the catalog to the user's options.

use rand::seq::SliceRandom;
use vstd::prelude::*;

verus! {

/// One entry of the scheme index file: identity and resource locations.
#[derive(Clone, Debug)]
pub struct Scheme {
    /// Unique scheme identifier.
    pub id: String,
    /// User-facing name.
    pub full_name: String,
    /// Location of the scheme's zigen catalog.
    pub zigen_url: String,
    /// Location of the font the catalog needs.
    pub zigen_font: String,
}

/// User-chosen training options.
#[derive(Clone, Copy, Debug, PartialEq, Eq, Structural, Default)]
pub struct SchemeOptions {
    /// Shuffle the catalog order.
    pub shuffle: bool,
    /// Train simplified and traditional roots together.
    pub combined_training: bool,
    /// Put traditional roots first.
    pub prioritize_trad: bool,
    /// Use the parameter set for experienced users.
    pub adept: bool,
}

/// Classification of a zigen group; scheduling defers some classes
/// according to the user's options.
#[derive(Clone, Copy, Debug, PartialEq, Eq, Structural)]
pub enum ZigenClass {
    /// Common to both script forms.
    Common,
    /// Simplified-script root.
    Simplified,
    /// Traditional-script root.
    Traditional,
    /// Rarely used root.
    Uncommon,
}

/// A single zigen (character root).
#[derive(Clone, Debug)]
pub struct Zigen(pub String);

impl View for Zigen {
    type V = Seq<char>;

    open spec fn view(&self) -> Seq<char> {
        self.0@
    }
}

/// Zigens of one cluster that look alike and share a code.
#[derive(Clone, Debug)]
pub struct ZigenGroup {
    pub zigens: Vec<Zigen>,
    pub code: String,
    pub classify: ZigenClass,
    pub description: String,
}

/// Mathematical model of a zigen group.
pub struct ZigenGroupV {
    pub zigens: Seq<Seq<char>>,
    pub code: Seq<char>,
    pub classify: ZigenClass,
    pub description: Seq<char>,
}

impl View for ZigenGroup {
    type V = ZigenGroupV;

    open spec fn view(&self) -> ZigenGroupV {
        ZigenGroupV {
            zigens: Seq::new(self.zigens@.len(), |i: int| self.zigens@[i]@),
            code: self.code@,
            classify: self.classify,
            description: self.description@,
        }
    }
}

/// Groups of one cluster, differing in code.
#[derive(Clone, Debug)]
pub struct ZigenCategory {
    pub groups: Vec<ZigenGroup>,
    pub description: String,
}

/// Mathematical model of a category or populated confusable set: its groups
/// and its description.
pub struct GroupListV {
    pub groups: Seq<ZigenGroupV>,
    pub description: Seq<char>,
}

impl View for ZigenCategory {
    type V = GroupListV;

    open spec fn view(&self) -> GroupListV {
        GroupListV {
            groups: Seq::new(self.groups@.len(), |i: int| self.groups@[i]@),
            description: self.description@,
        }
    }
}

/// Easily confused zigens, with their groups already looked up.
#[derive(Clone, Debug)]
pub struct ZigenConfusable {
    pub groups: Vec<ZigenGroup>,
    pub description: String,
}

impl View for ZigenConfusable {
    type V = GroupListV;

    open spec fn view(&self) -> GroupListV {
        GroupListV {
            groups: Seq::new(self.groups@.len(), |i: int| self.groups@[i]@),
            description: self.description@,
        }
    }
}

/// Easily confused zigens, named by their representative zigen only.
#[derive(Clone, Debug)]
pub struct ZigenConfusableUnpopulated {
    pub zigens: Vec<Zigen>,
    pub description: String,
}

/// Mathematical model of an unpopulated confusable set.
pub struct UnpopulatedV {
    pub zigens: Seq<Seq<char>>,
    pub description: Seq<char>,
}

impl View for ZigenConfusableUnpopulated {
    type V = UnpopulatedV;

    open spec fn view(&self) -> UnpopulatedV {
        UnpopulatedV {
            zigens: Seq::new(self.zigens@.len(), |i: int| self.zigens@[i]@),
            description: self.description@,
        }
    }
}

/// One catalog entry: a cluster category, or a confusable set.
#[derive(Clone, Debug)]
pub enum SchemeZigen<Z> {
    Category(ZigenCategory),
    Confusable(Z),
}

/// Mathematical model of a catalog entry.
pub enum SchemeZigenV<ZV> {
    Category(GroupListV),
    Confusable(ZV),
}

impl<Z: View> View for SchemeZigen<Z> {
    type V = SchemeZigenV<Z::V>;

    open spec fn view(&self) -> SchemeZigenV<Z::V> {
        match self {
            SchemeZigen::Category(cat) => SchemeZigenV::Category(cat@),
            SchemeZigen::Confusable(con) => SchemeZigenV::Confusable(con@),
        }
    }
}

/// A whole zigen catalog, in presentation order.
#[derive(Clone, Debug)]
pub struct LoadedScheme<Z>(pub Vec<SchemeZigen<Z>>);

impl<Z: View> View for LoadedScheme<Z> {
    type V = Seq<SchemeZigenV<Z::V>>;

    open spec fn view(&self) -> Seq<SchemeZigenV<Z::V>> {
        Seq::new(self.0@.len(), |i: int| self.0@[i]@)
    }
}

impl SchemeZigen<ZigenConfusable> {
    /// The entry's groups and description, whichever variant holds them.
    pub fn as_raw_parts(&self) -> (r: (&Vec<ZigenGroup>, &String))
        ensures
            match self {
                SchemeZigen::Category(cat) => r.0 == &cat.groups && r.1 == &cat.description,
                SchemeZigen::Confusable(con) => r.0 == &con.groups && r.1 == &con.description,
            },
    {
        match self {
            SchemeZigen::Category(cat) => (&cat.groups, &cat.description),
            SchemeZigen::Confusable(con) => (&con.groups, &con.description),
        }
    }

    /// Mutable access to the entry's groups and description.
    pub fn as_raw_parts_mut(&mut self) -> ((groups, description): (
        &mut Vec<ZigenGroup>,
        &mut String,
    ))
        ensures
            match *old(self) {
                SchemeZigen::Category(cat) => *groups == cat.groups && *description
                    == cat.description,
                SchemeZigen::Confusable(con) => *groups == con.groups && *description
                    == con.description,
            },
            *final(self) == match *old(self) {
                SchemeZigen::Category(_) => SchemeZigen::Category(
                    ZigenCategory { groups: *final(groups), description: *final(description) },
                ),
                SchemeZigen::Confusable(_) => SchemeZigen::Confusable(
                    ZigenConfusable { groups: *final(groups), description: *final(description) },
                ),
            },
    {
        match self {
            SchemeZigen::Category(cat) => (&mut cat.groups, &mut cat.description),
            SchemeZigen::Confusable(con) => (&mut con.groups, &mut con.description),
        }
    }
}

/// The models of a sequence of zigens.
pub open spec fn zigens_view(s: Seq<Zigen>) -> Seq<Seq<char>> {
    Seq::new(s.len(), |i: int| s[i]@)
}

/// The models of a sequence of groups.
pub open spec fn groups_view(s: Seq<ZigenGroup>) -> Seq<ZigenGroupV> {
    Seq::new(s.len(), |i: int| s[i]@)
}

/// Whether two zigens are the same character root.
pub fn zigen_eq(a: &Zigen, b: &Zigen) -> (r: bool)
    ensures
        r == (a@ == b@),
{
    a.0 == b.0
}

/// Whether two zigen lists agree element for element.
fn zigens_eq(a: &Vec<Zigen>, b: &Vec<Zigen>) -> (r: bool)
    ensures
        r == (zigens_view(a@) == zigens_view(b@)),
{
    if a.len() != b.len() {
        proof {
            assert(zigens_view(a@).len() != zigens_view(b@).len());
        }
        return false;
    }
    let mut i: usize = 0;
    while i < a.len()
        invariant
            a@.len() == b@.len(),
            i <= a@.len(),
            forall|j: int| 0 <= j < i ==> zigens_view(a@)[j] == zigens_view(b@)[j],
        decreases a@.len() - i,
    {
        if !zigen_eq(&a[i], &b[i]) {
            proof {
                assert(zigens_view(a@)[i as int] != zigens_view(b@)[i as int]);
            }
            return false;
        }
        i = i + 1;
    }
    proof {
        assert(zigens_view(a@) =~= zigens_view(b@));
    }
    true
}

/// Whether two groups agree in zigens, code, class and description.
pub fn group_eq(a: &ZigenGroup, b: &ZigenGroup) -> (r: bool)
    ensures
        r == (a@ == b@),
{
    zigens_eq(&a.zigens, &b.zigens) && a.code == b.code && a.classify == b.classify
        && a.description == b.description
}

/// Whether two group lists agree element for element.
fn group_lists_eq(a: &Vec<ZigenGroup>, b: &Vec<ZigenGroup>) -> (r: bool)
    ensures
        r == (groups_view(a@) == groups_view(b@)),
{
    if a.len() != b.len() {
        proof {
            assert(groups_view(a@).len() != groups_view(b@).len());
        }
        return false;
    }
    let mut i: usize = 0;
    while i < a.len()
        invariant
            a@.len() == b@.len(),
            i <= a@.len(),
            forall|j: int| 0 <= j < i ==> groups_view(a@)[j] == groups_view(b@)[j],
        decreases a@.len() - i,
    {
        if !group_eq(&a[i], &b[i]) {
            proof {
                assert(groups_view(a@)[i as int] != groups_view(b@)[i as int]);
            }
            return false;
        }
        i = i + 1;
    }
    proof {
        assert(groups_view(a@) =~= groups_view(b@));
    }
    true
}

/// Whether two populated catalog entries are the same.
pub fn scheme_zigen_eq(a: &SchemeZigen<ZigenConfusable>, b: &SchemeZigen<ZigenConfusable>) -> (r:
    bool)
    ensures
        r == (a@ == b@),
{
    match (a, b) {
        (SchemeZigen::Category(c1), SchemeZigen::Category(c2)) => group_lists_eq(
            &c1.groups,
            &c2.groups,
        ) && c1.description == c2.description,
        (SchemeZigen::Confusable(c1), SchemeZigen::Confusable(c2)) => group_lists_eq(
            &c1.groups,
            &c2.groups,
        ) && c1.description == c2.description,
        _ => false,
    }
}

/// An exact copy of a zigen.
fn clone_zigen(z: &Zigen) -> (r: Zigen)
    ensures
        r@ == z@,
{
    Zigen(z.0.clone())
}

/// An exact copy of a zigen list.
fn clone_zigens(v: &Vec<Zigen>) -> (r: Vec<Zigen>)
    ensures
        zigens_view(r@) == zigens_view(v@),
{
    let mut out: Vec<Zigen> = Vec::new();
    let mut i: usize = 0;
    while i < v.len()
        invariant
            i <= v@.len(),
            out@.len() == i,
            forall|j: int| 0 <= j < i ==> out@[j]@ == v@[j]@,
        decreases v@.len() - i,
    {
        out.push(clone_zigen(&v[i]));
        i = i + 1;
    }
    proof {
        assert(zigens_view(out@) =~= zigens_view(v@));
    }
    out
}

/// An exact copy of a group.
fn clone_group(g: &ZigenGroup) -> (r: ZigenGroup)
    ensures
        r@ == g@,
{
    let r = ZigenGroup {
        zigens: clone_zigens(&g.zigens),
        code: g.code.clone(),
        classify: g.classify,
        description: g.description.clone(),
    };
    proof {
        assert(r@.zigens =~= g@.zigens);
    }
    r
}

/// An exact copy of a group list.
fn clone_group_list(v: &Vec<ZigenGroup>) -> (r: Vec<ZigenGroup>)
    ensures
        groups_view(r@) == groups_view(v@),
{
    let mut out: Vec<ZigenGroup> = Vec::new();
    let mut i: usize = 0;
    while i < v.len()
        invariant
            i <= v@.len(),
            out@.len() == i,
            forall|j: int| 0 <= j < i ==> out@[j]@ == v@[j]@,
        decreases v@.len() - i,
    {
        out.push(clone_group(&v[i]));
        i = i + 1;
    }
    proof {
        assert(groups_view(out@) =~= groups_view(v@));
    }
    out
}

/// The groups a catalog entry contributes to confusable lookup: the groups
/// of a category, nothing from a confusable set.
pub open spec fn entry_groups<ZV>(e: SchemeZigenV<ZV>) -> Seq<ZigenGroupV> {
    match e {
        SchemeZigenV::Category(cat) => cat.groups,
        SchemeZigenV::Confusable(_) => Seq::empty(),
    }
}

/// All groups of all categories of the catalog, in catalog order.
pub open spec fn catalog_groups<ZV>(s: Seq<SchemeZigenV<ZV>>) -> Seq<ZigenGroupV>
    decreases s.len(),
{
    if s.len() == 0 {
        Seq::empty()
    } else {
        catalog_groups(s.drop_last()) + entry_groups(s.last())
    }
}

/// Whether a group represents a zigen: the zigen is the group's first.
pub open spec fn group_matches(g: ZigenGroupV, z: Seq<char>) -> bool {
    g.zigens.len() > 0 && g.zigens[0] == z
}

/// The last group of the list that represents the zigen, if any: later
/// categories override earlier ones.
pub open spec fn last_match(gs: Seq<ZigenGroupV>, z: Seq<char>) -> Option<ZigenGroupV>
    decreases gs.len(),
{
    if gs.len() == 0 {
        None
    } else if group_matches(gs.last(), z) {
        Some(gs.last())
    } else {
        last_match(gs.drop_last(), z)
    }
}

/// The index of the last group of the list representing the zigen, if any.
fn find_last_match(groups: &Vec<ZigenGroup>, z: &Zigen) -> (r: Option<usize>)
    ensures
        match r {
            Some(k) => k < groups@.len() && last_match(groups_view(groups@), z@) == Some(
                groups@[k as int]@,
            ),
            None => last_match(groups_view(groups@), z@) is None,
        },
{
    let mut best: Option<usize> = None;
    let mut i: usize = 0;
    while i < groups.len()
        invariant
            i <= groups@.len(),
            match best {
                Some(k) => k < i && last_match(groups_view(groups@).take(i as int), z@) == Some(
                    groups@[k as int]@,
                ),
                None => last_match(groups_view(groups@).take(i as int), z@) is None,
            },
        decreases groups@.len() - i,
    {
        let g = &groups[i];
        let m = g.zigens.len() > 0 && zigen_eq(&g.zigens[0], z);
        proof {
            assert(m == group_matches(groups_view(groups@)[i as int], z@));
            assert(groups_view(groups@).take(i + 1).drop_last() =~= groups_view(groups@).take(
                i as int,
            ));
            assert(groups_view(groups@).take(i + 1).last() == groups_view(groups@)[i as int]);
        }
        if m {
            best = Some(i);
        }
        i = i + 1;
    }
    proof {
        assert(groups_view(groups@).take(groups@.len() as int) =~= groups_view(groups@));
    }
    best
}

impl LoadedScheme<ZigenConfusableUnpopulated> {
    /// Replaces each confusable set's representative zigens by the groups
    /// that represent them, looked up across all categories; when several
    /// categories carry a group for the same zigen, the last one wins.
    /// Categories pass through unchanged.
    pub fn populate_confusables(self) -> (r: LoadedScheme<ZigenConfusable>)
        requires
            forall|i: int|
                0 <= i < self@.len() ==> match #[trigger] self@[i] {
                    SchemeZigenV::Confusable(con) => forall|j: int|
                        0 <= j < con.zigens.len() ==> last_match(
                            catalog_groups(self@),
                            #[trigger] con.zigens[j],
                        ) is Some,
                    SchemeZigenV::Category(_) => true,
                },
        ensures
            r@.len() == self@.len(),
            forall|i: int|
                0 <= i < self@.len() ==> match (#[trigger] self@[i], #[trigger] r@[i]) {
                    (SchemeZigenV::Category(c1), SchemeZigenV::Category(c2)) => c2 == c1,
                    (SchemeZigenV::Confusable(con), SchemeZigenV::Confusable(pc)) => {
                        &&& pc.description == con.description
                        &&& pc.groups.len() == con.zigens.len()
                        &&& forall|j: int|
                            0 <= j < con.zigens.len() ==> #[trigger] pc.groups[j] == last_match(
                                catalog_groups(self@),
                                con.zigens[j],
                            ).unwrap()
                    },
                    _ => false,
                },
    {
        let ghost sv = self@;
        // First pass: gather every category's groups, in catalog order.
        let mut all_groups: Vec<ZigenGroup> = Vec::new();
        let mut i: usize = 0;
        while i < self.0.len()
            invariant
                i <= self.0@.len(),
                sv == self@,
                sv.len() == self.0@.len(),
                forall|k: int| 0 <= k < sv.len() ==> sv[k] == #[trigger] self.0@[k]@,
                groups_view(all_groups@) == catalog_groups(sv.take(i as int)),
            decreases self.0@.len() - i,
        {
            let ghost pre = groups_view(all_groups@);
            match &self.0[i] {
                SchemeZigen::Category(cat) => {
                    let mut j: usize = 0;
                    while j < cat.groups.len()
                        invariant
                            j <= cat.groups@.len(),
                            groups_view(all_groups@) == pre + groups_view(cat.groups@).take(
                                j as int,
                            ),
                        decreases cat.groups@.len() - j,
                    {
                        let ghost ag_before = all_groups@;
                        let cg = clone_group(&cat.groups[j]);
                        proof {
                            assert(cg@ == cat.groups@[j as int]@);
                        }
                        all_groups.push(cg);
                        proof {
                            let rhs = pre + groups_view(cat.groups@).take(j + 1);
                            assert(groups_view(ag_before).len() == ag_before.len());
                            assert(groups_view(cat.groups@).take(j as int).len() == j as int);
                            assert(ag_before.len() == pre.len() + j);
                            assert(groups_view(cat.groups@).take(j + 1).len() == j + 1);
                            assert forall|q: int| 0 <= q < all_groups@.len() implies groups_view(
                                all_groups@,
                            )[q] == rhs[q] by {
                                assert(groups_view(all_groups@)[q] == all_groups@[q]@);
                                if q < ag_before.len() {
                                    assert(all_groups@[q] == ag_before[q]);
                                    assert(groups_view(ag_before)[q] == ag_before[q]@);
                                    assert(groups_view(ag_before)[q] == (pre + groups_view(
                                        cat.groups@,
                                    ).take(j as int))[q]);
                                    if q >= pre.len() {
                                        assert((pre + groups_view(cat.groups@).take(j as int))[q]
                                            == groups_view(cat.groups@).take(j as int)[q
                                            - pre.len()]);
                                        assert(groups_view(cat.groups@).take(j as int)[q
                                            - pre.len()] == groups_view(cat.groups@)[q
                                            - pre.len()]);
                                        assert(rhs[q] == groups_view(cat.groups@).take(j + 1)[q
                                            - pre.len()]);
                                    }
                                } else {
                                    assert(q == pre.len() + j);
                                    assert(all_groups@[q] == cg);
                                    assert(rhs[q] == groups_view(cat.groups@).take(j + 1)[
                                        j as int]);
                                    assert(groups_view(cat.groups@).take(j + 1)[j as int]
                                        == groups_view(cat.groups@)[j as int]);
                                    assert(groups_view(cat.groups@)[j as int] == cat.groups@[
                                        j as int]@);
                                }
                            }
                            assert(groups_view(all_groups@) =~= rhs);
                        }
                        j = j + 1;
                    }
                    proof {
                        assert(groups_view(cat.groups@).take(cat.groups@.len() as int)
                            =~= groups_view(cat.groups@));
                        assert(cat@.groups =~= groups_view(cat.groups@));
                        assert(sv.take(i + 1).drop_last() =~= sv.take(i as int));
                        assert(sv.take(i + 1).last() == sv[i as int]);
                        assert(groups_view(all_groups@) == catalog_groups(sv.take(i + 1)));
                    }
                },
                SchemeZigen::Confusable(_) => {
                    proof {
                        assert(sv.take(i + 1).drop_last() =~= sv.take(i as int));
                        assert(sv.take(i + 1).last() == sv[i as int]);
                        assert(pre + entry_groups(sv[i as int]) =~= pre);
                    }
                },
            }
            i = i + 1;
        }
        proof {
            assert(sv.take(sv.len() as int) =~= sv);
            assert(groups_view(all_groups@) == catalog_groups(sv));
        }
        // Second pass: rebuild the catalog, populating each confusable set.
        let mut out: Vec<SchemeZigen<ZigenConfusable>> = Vec::new();
        let mut i2: usize = 0;
        while i2 < self.0.len()
            invariant
                i2 <= self.0@.len(),
                sv == self@,
                sv.len() == self.0@.len(),
                forall|k: int| 0 <= k < sv.len() ==> sv[k] == #[trigger] self.0@[k]@,
                forall|k: int|
                    0 <= k < sv.len() ==> match #[trigger] sv[k] {
                        SchemeZigenV::Confusable(con) => forall|j: int|
                            0 <= j < con.zigens.len() ==> last_match(
                                catalog_groups(sv),
                                #[trigger] con.zigens[j],
                            ) is Some,
                        SchemeZigenV::Category(_) => true,
                    },
                groups_view(all_groups@) == catalog_groups(sv),
                out@.len() == i2,
                forall|k: int|
                    0 <= k < i2 ==> match (#[trigger] sv[k], #[trigger] out@[k]@) {
                        (SchemeZigenV::Category(c1), SchemeZigenV::Category(c2)) => c2 == c1,
                        (SchemeZigenV::Confusable(con), SchemeZigenV::Confusable(pc)) => {
                            &&& pc.description == con.description
                            &&& pc.groups.len() == con.zigens.len()
                            &&& forall|j: int|
                                0 <= j < con.zigens.len() ==> #[trigger] pc.groups[j]
                                    == last_match(catalog_groups(sv), con.zigens[j]).unwrap()
                        },
                        _ => false,
                    },
            decreases self.0@.len() - i2,
        {
            match &self.0[i2] {
                SchemeZigen::Category(cat) => {
                    let copy = ZigenCategory {
                        groups: clone_group_list(&cat.groups),
                        description: cat.description.clone(),
                    };
                    proof {
                        assert(copy@.groups =~= cat@.groups);
                    }
                    out.push(SchemeZigen::Category(copy));
                },
                SchemeZigen::Confusable(con) => {
                    proof {
                        assert(sv[i2 as int] == SchemeZigenV::Confusable(con@));
                        assert(match sv[i2 as int] {
                            SchemeZigenV::Confusable(conv) => forall|j: int|
                                0 <= j < conv.zigens.len() ==> last_match(
                                    catalog_groups(sv),
                                    #[trigger] conv.zigens[j],
                                ) is Some,
                            SchemeZigenV::Category(_) => true,
                        });
                        assert forall|q: int| 0 <= q < con.zigens@.len() implies last_match(
                            catalog_groups(sv),
                            #[trigger] con.zigens@[q]@,
                        ) is Some by {
                            assert(con@.zigens.len() == con.zigens@.len());
                            assert(con@.zigens[q] == con.zigens@[q]@);
                            assert(last_match(catalog_groups(sv), con@.zigens[q]) is Some);
                        }
                    }
                    let mut found: Vec<ZigenGroup> = Vec::new();
                    let mut j: usize = 0;
                    while j < con.zigens.len()
                        invariant
                            j <= con.zigens@.len(),
                            groups_view(all_groups@) == catalog_groups(sv),
                            forall|q: int|
                                0 <= q < con.zigens@.len() ==> last_match(
                                    catalog_groups(sv),
                                    #[trigger] con.zigens@[q]@,
                                ) is Some,
                            found@.len() == j,
                            forall|q: int|
                                0 <= q < j ==> #[trigger] found@[q]@ == last_match(
                                    catalog_groups(sv),
                                    con.zigens@[q]@,
                                ).unwrap(),
                        decreases con.zigens@.len() - j,
                    {
                        let m = find_last_match(&all_groups, &con.zigens[j]);
                        match m {
                            Some(k) => {
                                found.push(clone_group(&all_groups[k]));
                                proof {
                                    assert(groups_view(all_groups@)[k as int]
                                        == all_groups@[k as int]@);
                                }
                            },
                            None => {
                                proof {
                                    assert(false);
                                }
                            },
                        }
                        j = j + 1;
                    }
                    let pc = ZigenConfusable { groups: found, description: con.description.clone() };
                    proof {
                        assert(pc@.groups.len() == con@.zigens.len());
                        assert forall|q: int| 0 <= q < con@.zigens.len() implies #[trigger] pc@
                            .groups[q] == last_match(catalog_groups(sv), con@.zigens[q]).unwrap() by {
                            assert(pc@.groups[q] == pc.groups@[q]@);
                            assert(con@.zigens[q] == con.zigens@[q]@);
                        }
                    }
                    out.push(SchemeZigen::Confusable(pc));
                },
            }
            i2 = i2 + 1;
        }
        let r = LoadedScheme(out);
        proof {
            assert forall|k: int| 0 <= k < sv.len() implies match (
                #[trigger] sv[k],
                #[trigger] r@[k],
            ) {
                (SchemeZigenV::Category(c1), SchemeZigenV::Category(c2)) => c2 == c1,
                (SchemeZigenV::Confusable(con), SchemeZigenV::Confusable(pc)) => {
                    &&& pc.description == con.description
                    &&& pc.groups.len() == con.zigens.len()
                    &&& forall|j: int|
                        0 <= j < con.zigens.len() ==> #[trigger] pc.groups[j] == last_match(
                            catalog_groups(sv),
                            con.zigens[j],
                        ).unwrap()
                },
                _ => false,
            } by {
                assert(r@[k] == out@[k]@);
            }
        }
        r
    }
}

/// Filtering a sequence extended by one element keeps the filtered prefix
/// and appends the element exactly when it satisfies the predicate.
pub proof fn lemma_filter_snoc<A>(s: Seq<A>, pred: spec_fn(A) -> bool, x: A)
    ensures
        s.push(x).filter(pred) == (if pred(x) {
            s.filter(pred).push(x)
        } else {
            s.filter(pred)
        }),
{
    reveal(Seq::filter);
    assert(s.push(x).len() == s.len() + 1);
    assert(s.push(x).drop_last() =~= s);
    assert(s.push(x).last() == x);
}

/// The models of a sequence of populated catalog entries.
pub open spec fn entries_view(s: Seq<SchemeZigen<ZigenConfusable>>) -> Seq<
    SchemeZigenV<GroupListV>,
> {
    Seq::new(s.len(), |i: int| s[i]@)
}

/// The groups kept for the simplified-script pass.
pub open spec fn simp_keep(prioritize_trad: bool) -> spec_fn(ZigenGroupV) -> bool {
    |g: ZigenGroupV|
        g.classify == ZigenClass::Simplified || (!prioritize_trad && g.classify
            == ZigenClass::Common)
}

/// The groups kept for the traditional-script pass.
pub open spec fn trad_keep(prioritize_trad: bool) -> spec_fn(ZigenGroupV) -> bool {
    |g: ZigenGroupV|
        g.classify == ZigenClass::Traditional || (prioritize_trad && g.classify
            == ZigenClass::Common)
}

/// The groups kept for the uncommon pass.
pub open spec fn unc_keep() -> spec_fn(ZigenGroupV) -> bool {
    |g: ZigenGroupV| g.classify == ZigenClass::Uncommon
}

/// The categories of the catalog with only the kept groups, empty ones
/// dropped, in catalog order; confusable sets contribute nothing.
pub open spec fn cats_filtered(
    s: Seq<SchemeZigenV<GroupListV>>,
    keep: spec_fn(ZigenGroupV) -> bool,
) -> Seq<SchemeZigenV<GroupListV>>
    decreases s.len(),
{
    if s.len() == 0 {
        Seq::empty()
    } else {
        cats_filtered(s.drop_last(), keep) + match s.last() {
            SchemeZigenV::Category(cat) => {
                let kept = cat.groups.filter(keep);
                if kept.len() > 0 {
                    seq![
                        SchemeZigenV::Category(
                            GroupListV { groups: kept, description: cat.description },
                        ),
                    ]
                } else {
                    Seq::empty()
                }
            },
            SchemeZigenV::Confusable(_) => Seq::empty(),
        }
    }
}

/// The confusable sets of the catalog, in catalog order.
pub open spec fn confusables_of(s: Seq<SchemeZigenV<GroupListV>>) -> Seq<
    SchemeZigenV<GroupListV>,
>
    decreases s.len(),
{
    if s.len() == 0 {
        Seq::empty()
    } else {
        confusables_of(s.drop_last()) + match s.last() {
            SchemeZigenV::Category(_) => Seq::empty(),
            SchemeZigenV::Confusable(c) => seq![SchemeZigenV::Confusable(c)],
        }
    }
}

/// The catalog after ordering to the options, as a pure function of the
/// catalog model: the leading script's kept categories (both scripts in
/// combined training), then the uncommon categories, then the confusable
/// sets.
pub open spec fn sorted_catalog(
    sv: Seq<SchemeZigenV<GroupListV>>,
    options: SchemeOptions,
) -> Seq<SchemeZigenV<GroupListV>> {
    let t = cats_filtered(sv, trad_keep(options.prioritize_trad));
    let s_ = cats_filtered(sv, simp_keep(options.prioritize_trad));
    let u = cats_filtered(sv, unc_keep());
    let cf = confusables_of(sv);
    let a = if options.prioritize_trad {
        t
    } else {
        s_
    };
    let b = if options.prioritize_trad {
        s_
    } else {
        t
    };
    (if options.combined_training {
        a + b
    } else {
        a
    }) + u + cf
}

/// Relies on rand's `SliceRandom::shuffle` (Fisher-Yates, in-place swaps):
/// the catalog entries are permuted, so their models form the same multiset
/// and the length is kept. Nothing is assumed about the resulting order.
#[verifier::external_body]
fn shuffle_entries(v: &mut Vec<SchemeZigen<ZigenConfusable>>)
    ensures
        final(v)@.len() == old(v)@.len(),
        entries_view(final(v)@).to_multiset() == entries_view(old(v)@).to_multiset(),
{
    v.shuffle(&mut rand::rng());
}

/// An exact copy of a populated confusable set.
fn clone_confusable(c: &ZigenConfusable) -> (r: ZigenConfusable)
    ensures
        r@ == c@,
{
    let r = ZigenConfusable {
        groups: clone_group_list(&c.groups),
        description: c.description.clone(),
    };
    proof {
        assert(r@.groups =~= c@.groups);
    }
    r
}

/// The populated form of an unpopulated catalog, as a pure function of its
/// model: categories pass through, and each confusable zigen is replaced by
/// the last group representing it across all categories.
pub open spec fn populated_view(sv: Seq<SchemeZigenV<UnpopulatedV>>) -> Seq<
    SchemeZigenV<GroupListV>,
> {
    Seq::new(
        sv.len(),
        |i: int|
            match sv[i] {
                SchemeZigenV::Category(c) => SchemeZigenV::Category(c),
                SchemeZigenV::Confusable(con) => SchemeZigenV::Confusable(
                    GroupListV {
                        groups: Seq::new(
                            con.zigens.len(),
                            |j: int| last_match(catalog_groups(sv), con.zigens[j]).unwrap(),
                        ),
                        description: con.description,
                    },
                ),
            },
    )
}

/// An exact copy of an unpopulated confusable set.
pub(crate) fn clone_unpopulated(c: &ZigenConfusableUnpopulated) -> (r: ZigenConfusableUnpopulated)
    ensures
        r@ == c@,
{
    let r = ZigenConfusableUnpopulated {
        zigens: clone_zigens(&c.zigens),
        description: c.description.clone(),
    };
    proof {
        assert(r@.zigens =~= c@.zigens);
    }
    r
}

/// An exact copy of an unpopulated catalog entry.
pub(crate) fn clone_unpopulated_entry(e: &SchemeZigen<ZigenConfusableUnpopulated>) -> (r:
    SchemeZigen<ZigenConfusableUnpopulated>)
    ensures
        r@ == e@,
{
    match e {
        SchemeZigen::Category(cat) => SchemeZigen::Category(clone_category(cat)),
        SchemeZigen::Confusable(con) => SchemeZigen::Confusable(clone_unpopulated(con)),
    }
}

/// An exact copy of an unpopulated catalog.
pub fn clone_unpopulated_scheme(s: &LoadedScheme<ZigenConfusableUnpopulated>) -> (r: LoadedScheme<
    ZigenConfusableUnpopulated,
>)
    ensures
        r@ == s@,
{
    let mut out: Vec<SchemeZigen<ZigenConfusableUnpopulated>> = Vec::new();
    let mut i: usize = 0;
    while i < s.0.len()
        invariant
            i <= s.0@.len(),
            out@.len() == i,
            forall|j: int| 0 <= j < i ==> #[trigger] out@[j]@ == s.0@[j]@,
        decreases s.0@.len() - i,
    {
        out.push(clone_unpopulated_entry(&s.0[i]));
        i = i + 1;
    }
    let r = LoadedScheme(out);
    proof {
        assert(r@ =~= s@);
    }
    r
}

/// An exact copy of a category.
pub(crate) fn clone_category(c: &ZigenCategory) -> (r: ZigenCategory)
    ensures
        r@ == c@,
{
    let r = ZigenCategory { groups: clone_group_list(&c.groups), description: c.description.clone() };
    proof {
        assert(r@.groups =~= c@.groups);
    }
    r
}

/// An exact copy of a populated catalog entry.
pub(crate) fn clone_scheme_zigen(e: &SchemeZigen<ZigenConfusable>) -> (r: SchemeZigen<
    ZigenConfusable,
>)
    ensures
        r@ == e@,
{
    match e {
        SchemeZigen::Category(cat) => SchemeZigen::Category(clone_category(cat)),
        SchemeZigen::Confusable(con) => SchemeZigen::Confusable(clone_confusable(con)),
    }
}

/// The kept groups of a category, copied: the simplified pass.
fn filter_groups_simp(groups: &Vec<ZigenGroup>, prioritize_trad: bool) -> (r: Vec<ZigenGroup>)
    ensures
        groups_view(r@) == groups_view(groups@).filter(simp_keep(prioritize_trad)),
{
    let ghost keep = simp_keep(prioritize_trad);
    let mut out: Vec<ZigenGroup> = Vec::new();
    let mut i: usize = 0;
    while i < groups.len()
        invariant
            i <= groups@.len(),
            keep == simp_keep(prioritize_trad),
            groups_view(out@) == groups_view(groups@).take(i as int).filter(keep),
        decreases groups@.len() - i,
    {
        let g = &groups[i];
        let kept = g.classify == ZigenClass::Simplified || (!prioritize_trad && g.classify
            == ZigenClass::Common);
        proof {
            assert(kept == keep(groups_view(groups@)[i as int]));
            assert(groups_view(groups@).take(i + 1).drop_last() =~= groups_view(groups@).take(
                i as int,
            ));
            assert(groups_view(groups@).take(i + 1).last() == groups_view(groups@)[i as int]);
        }
        if kept {
            let ghost before = groups_view(out@);
            out.push(clone_group(g));
            proof {
                assert(groups_view(out@) =~= before.push(groups_view(groups@)[i as int]));
            }
        }
        proof {
            let gv = groups_view(groups@);
            assert(gv.take(i + 1) =~= gv.take(i as int).push(gv[i as int]));
            lemma_filter_snoc(gv.take(i as int), keep, gv[i as int]);
            assert(groups_view(out@) == gv.take(i + 1).filter(keep));
        }
        i = i + 1;
    }
    proof {
        assert(groups_view(groups@).take(groups@.len() as int) =~= groups_view(groups@));
    }
    out
}

/// The kept groups of a category, copied: the traditional pass.
fn filter_groups_trad(groups: &Vec<ZigenGroup>, prioritize_trad: bool) -> (r: Vec<ZigenGroup>)
    ensures
        groups_view(r@) == groups_view(groups@).filter(trad_keep(prioritize_trad)),
{
    let ghost keep = trad_keep(prioritize_trad);
    let mut out: Vec<ZigenGroup> = Vec::new();
    let mut i: usize = 0;
    while i < groups.len()
        invariant
            i <= groups@.len(),
            keep == trad_keep(prioritize_trad),
            groups_view(out@) == groups_view(groups@).take(i as int).filter(keep),
        decreases groups@.len() - i,
    {
        let g = &groups[i];
        let kept = g.classify == ZigenClass::Traditional || (prioritize_trad && g.classify
            == ZigenClass::Common);
        proof {
            assert(kept == keep(groups_view(groups@)[i as int]));
            assert(groups_view(groups@).take(i + 1).drop_last() =~= groups_view(groups@).take(
                i as int,
            ));
            assert(groups_view(groups@).take(i + 1).last() == groups_view(groups@)[i as int]);
        }
        if kept {
            let ghost before = groups_view(out@);
            out.push(clone_group(g));
            proof {
                assert(groups_view(out@) =~= before.push(groups_view(groups@)[i as int]));
            }
        }
        proof {
            let gv = groups_view(groups@);
            assert(gv.take(i + 1) =~= gv.take(i as int).push(gv[i as int]));
            lemma_filter_snoc(gv.take(i as int), keep, gv[i as int]);
            assert(groups_view(out@) == gv.take(i + 1).filter(keep));
        }
        i = i + 1;
    }
    proof {
        assert(groups_view(groups@).take(groups@.len() as int) =~= groups_view(groups@));
    }
    out
}

/// The kept groups of a category, copied: the uncommon pass.
fn filter_groups_unc(groups: &Vec<ZigenGroup>) -> (r: Vec<ZigenGroup>)
    ensures
        groups_view(r@) == groups_view(groups@).filter(unc_keep()),
{
    let ghost keep = unc_keep();
    let mut out: Vec<ZigenGroup> = Vec::new();
    let mut i: usize = 0;
    while i < groups.len()
        invariant
            i <= groups@.len(),
            keep == unc_keep(),
            groups_view(out@) == groups_view(groups@).take(i as int).filter(keep),
        decreases groups@.len() - i,
    {
        let g = &groups[i];
        let kept = g.classify == ZigenClass::Uncommon;
        proof {
            assert(kept == keep(groups_view(groups@)[i as int]));
            assert(groups_view(groups@).take(i + 1).drop_last() =~= groups_view(groups@).take(
                i as int,
            ));
            assert(groups_view(groups@).take(i + 1).last() == groups_view(groups@)[i as int]);
        }
        if kept {
            let ghost before = groups_view(out@);
            out.push(clone_group(g));
            proof {
                assert(groups_view(out@) =~= before.push(groups_view(groups@)[i as int]));
            }
        }
        proof {
            let gv = groups_view(groups@);
            assert(gv.take(i + 1) =~= gv.take(i as int).push(gv[i as int]));
            lemma_filter_snoc(gv.take(i as int), keep, gv[i as int]);
            assert(groups_view(out@) == gv.take(i + 1).filter(keep));
        }
        i = i + 1;
    }
    proof {
        assert(groups_view(groups@).take(groups@.len() as int) =~= groups_view(groups@));
    }
    out
}

impl LoadedScheme<ZigenConfusable> {
    /// Orders the catalog to the user's options: first the prioritized
    /// script's categories (each reduced to its kept groups, empty ones
    /// dropped), then — in combined training — the other script's, then the
    /// uncommon groups, then the confusable sets. With shuffling on, the two
    /// leading script segments are each permuted in place.
    pub fn sort_to_options(&mut self, options: &SchemeOptions)
        ensures
            ({
                let sv = old(self)@;
                let t = cats_filtered(sv, trad_keep(options.prioritize_trad));
                let s_ = cats_filtered(sv, simp_keep(options.prioritize_trad));
                let u = cats_filtered(sv, unc_keep());
                let cf = confusables_of(sv);
                let a = if options.prioritize_trad {
                    t
                } else {
                    s_
                };
                let b = if options.prioritize_trad {
                    s_
                } else {
                    t
                };
                let head_len: int = if options.combined_training {
                    a.len() + b.len() as int
                } else {
                    a.len() as int
                };
                &&& final(self)@.len() == head_len + u.len() + cf.len()
                &&& final(self)@.skip(head_len) == u + cf
                &&& !options.shuffle ==> final(self)@.take(head_len) == if options
                    .combined_training {
                    a + b
                } else {
                    a
                }
                &&& options.shuffle ==> final(self)@.take(a.len() as int).to_multiset()
                    == a.to_multiset()
                &&& (options.shuffle && options.combined_training) ==> final(self)@.subrange(
                    a.len() as int,
                    head_len,
                ).to_multiset() == b.to_multiset()
                &&& !options.shuffle ==> final(self)@ == sorted_catalog(sv, *options)
                &&& final(self)@.to_multiset() == sorted_catalog(sv, *options).to_multiset()
            }),
    {
        let ghost sv = self@;
        let mut simps: Vec<SchemeZigen<ZigenConfusable>> = Vec::new();
        let mut trads: Vec<SchemeZigen<ZigenConfusable>> = Vec::new();
        let mut uncommons: Vec<SchemeZigen<ZigenConfusable>> = Vec::new();
        let mut confusables: Vec<SchemeZigen<ZigenConfusable>> = Vec::new();
        let mut i: usize = 0;
        while i < self.0.len()
            invariant
                i <= self.0@.len(),
                sv == self@,
                sv.len() == self.0@.len(),
                forall|k: int| 0 <= k < sv.len() ==> sv[k] == #[trigger] self.0@[k]@,
                entries_view(simps@) == cats_filtered(
                    sv.take(i as int),
                    simp_keep(options.prioritize_trad),
                ),
                entries_view(trads@) == cats_filtered(
                    sv.take(i as int),
                    trad_keep(options.prioritize_trad),
                ),
                entries_view(uncommons@) == cats_filtered(sv.take(i as int), unc_keep()),
                entries_view(confusables@) == confusables_of(sv.take(i as int)),
            decreases self.0@.len() - i,
        {
            proof {
                assert(sv.take(i + 1).drop_last() =~= sv.take(i as int));
                assert(sv.take(i + 1).last() == sv[i as int]);
            }
            match &self.0[i] {
                SchemeZigen::Confusable(con) => {
                    let ghost before = entries_view(confusables@);
                    confusables.push(SchemeZigen::Confusable(clone_confusable(con)));
                    proof {
                        assert(entries_view(confusables@) =~= before.push(
                            SchemeZigenV::Confusable(con@),
                        ));
                        assert(entries_view(simps@) =~= cats_filtered(
                            sv.take(i + 1),
                            simp_keep(options.prioritize_trad),
                        ));
                        assert(entries_view(trads@) =~= cats_filtered(
                            sv.take(i + 1),
                            trad_keep(options.prioritize_trad),
                        ));
                        assert(entries_view(uncommons@) =~= cats_filtered(
                            sv.take(i + 1),
                            unc_keep(),
                        ));
                    }
                },
                SchemeZigen::Category(cat) => {
                    let simp_groups = filter_groups_simp(&cat.groups, options.prioritize_trad);
                    let trad_groups = filter_groups_trad(&cat.groups, options.prioritize_trad);
                    let unc_groups = filter_groups_unc(&cat.groups);
                    proof {
                        assert(cat@.groups =~= groups_view(cat.groups@));
                    }
                    let ghost before_s = entries_view(simps@);
                    let ghost before_t = entries_view(trads@);
                    let ghost before_u = entries_view(uncommons@);
                    if simp_groups.len() > 0 {
                        let entry = ZigenCategory {
                            groups: simp_groups,
                            description: cat.description.clone(),
                        };
                        proof {
                            assert(entry@.groups =~= groups_view(cat.groups@).filter(
                                simp_keep(options.prioritize_trad),
                            ));
                        }
                        simps.push(SchemeZigen::Category(entry));
                        proof {
                            assert(entries_view(simps@) =~= before_s + seq![
                                SchemeZigenV::Category(
                                    GroupListV {
                                        groups: cat@.groups.filter(
                                            simp_keep(options.prioritize_trad),
                                        ),
                                        description: cat@.description,
                                    },
                                ),
                            ]);
                        }
                    } else {
                        proof {
                            assert(entries_view(simps@) =~= before_s);
                        }
                    }
                    if trad_groups.len() > 0 {
                        let entry = ZigenCategory {
                            groups: trad_groups,
                            description: cat.description.clone(),
                        };
                        proof {
                            assert(entry@.groups =~= groups_view(cat.groups@).filter(
                                trad_keep(options.prioritize_trad),
                            ));
                        }
                        trads.push(SchemeZigen::Category(entry));
                        proof {
                            assert(entries_view(trads@) =~= before_t + seq![
                                SchemeZigenV::Category(
                                    GroupListV {
                                        groups: cat@.groups.filter(
                                            trad_keep(options.prioritize_trad),
                                        ),
                                        description: cat@.description,
                                    },
                                ),
                            ]);
                        }
                    } else {
                        proof {
                            assert(entries_view(trads@) =~= before_t);
                        }
                    }
                    if unc_groups.len() > 0 {
                        let entry = ZigenCategory {
                            groups: unc_groups,
                            description: cat.description.clone(),
                        };
                        proof {
                            assert(entry@.groups =~= groups_view(cat.groups@).filter(unc_keep()));
                        }
                        uncommons.push(SchemeZigen::Category(entry));
                        proof {
                            assert(entries_view(uncommons@) =~= before_u + seq![
                                SchemeZigenV::Category(
                                    GroupListV {
                                        groups: cat@.groups.filter(unc_keep()),
                                        description: cat@.description,
                                    },
                                ),
                            ]);
                        }
                    } else {
                        proof {
                            assert(entries_view(uncommons@) =~= before_u);
                        }
                    }
                    proof {
                        assert(entries_view(simps@) =~= cats_filtered(
                            sv.take(i + 1),
                            simp_keep(options.prioritize_trad),
                        ));
                        assert(entries_view(trads@) =~= cats_filtered(
                            sv.take(i + 1),
                            trad_keep(options.prioritize_trad),
                        ));
                        assert(entries_view(uncommons@) =~= cats_filtered(
                            sv.take(i + 1),
                            unc_keep(),
                        ));
                        assert(entries_view(confusables@) =~= confusables_of(sv.take(i + 1)));
                    }
                },
            }
            i = i + 1;
        }
        proof {
            assert(sv.take(sv.len() as int) =~= sv);
        }
        if options.shuffle {
            shuffle_entries(&mut trads);
            shuffle_entries(&mut simps);
        }
        let (mut primary, mut secondary) = if options.prioritize_trad {
            (trads, simps)
        } else {
            (simps, trads)
        };
        let ghost a_seq = entries_view(primary@);
        let ghost b_seq = entries_view(secondary@);
        if options.combined_training {
            primary.append(&mut secondary);
            proof {
                assert(entries_view(primary@) =~= a_seq + b_seq);
            }
        }
        let ghost head = entries_view(primary@);
        primary.append(&mut uncommons);
        primary.append(&mut confusables);
        proof {
            assert(entries_view(primary@) =~= head + cats_filtered(sv, unc_keep())
                + confusables_of(sv));
        }
        self.0 = primary;
        proof {
            let t = cats_filtered(sv, trad_keep(options.prioritize_trad));
            let s_ = cats_filtered(sv, simp_keep(options.prioritize_trad));
            let u = cats_filtered(sv, unc_keep());
            let cf = confusables_of(sv);
            let a = if options.prioritize_trad {
                t
            } else {
                s_
            };
            let b = if options.prioritize_trad {
                s_
            } else {
                t
            };
            let head_len: int = if options.combined_training {
                a.len() + b.len() as int
            } else {
                a.len() as int
            };
            assert(self@ =~= entries_view(self.0@));
            assert(a_seq.len() == a.len());
            assert(b_seq.len() == b.len());
            assert(head.len() == head_len);
            assert(self@.skip(head_len) =~= u + cf);
            assert(self@.take(head_len) =~= head);
            if !options.shuffle {
                assert(a_seq == a);
                assert(b_seq == b);
                if options.combined_training {
                    assert(self@.take(head_len) =~= a + b);
                }
                assert(self@ =~= sorted_catalog(sv, *options));
            } else {
                assert(self@.take(a.len() as int) =~= a_seq.take(a.len() as int));
                assert(a_seq.take(a.len() as int) =~= a_seq);
                if options.combined_training {
                    assert(self@.subrange(a.len() as int, head_len) =~= b_seq);
                }
            }
            let target = sorted_catalog(sv, *options);
            assert(self@.to_multiset() == target.to_multiset()) by {
                if !options.shuffle {
                    assert(self@ == target);
                } else {
                    let tail = u + cf;
                    if options.combined_training {
                        assert(self@ =~= self@.take(a.len() as int) + self@.subrange(
                            a.len() as int,
                            head_len,
                        ) + self@.skip(head_len));
                        vstd::seq_lib::lemma_multiset_commutative(
                            self@.take(a.len() as int) + self@.subrange(a.len() as int, head_len),
                            self@.skip(head_len),
                        );
                        vstd::seq_lib::lemma_multiset_commutative(
                            self@.take(a.len() as int),
                            self@.subrange(a.len() as int, head_len),
                        );
                        vstd::seq_lib::lemma_multiset_commutative(a + b, tail);
                        vstd::seq_lib::lemma_multiset_commutative(a, b);
                        assert(target =~= (a + b) + tail);
                        assert(self@.to_multiset() =~= target.to_multiset());
                    } else {
                        assert(self@ =~= self@.take(head_len) + self@.skip(head_len));
                        assert(self@.take(head_len) == self@.take(a.len() as int));
                        vstd::seq_lib::lemma_multiset_commutative(
                            self@.take(head_len),
                            self@.skip(head_len),
                        );
                        vstd::seq_lib::lemma_multiset_commutative(a, tail);
                        assert(target =~= a + tail);
                        assert(self@.to_multiset() =~= target.to_multiset());
                    }
                }
            }
        }
    }
}

} // verus!
