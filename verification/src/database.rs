//! The catalogue of a sample archive: companies, their camera models, and
//! the image files of each model, as a listing of the archive shows them.

use crate::sorting::{stable_sort, stable_sort_of, ties_with, Ranked};
use crate::text::{
    lemma_name_le_antisymmetric, lemma_name_le_reflexive, lemma_name_le_total,
    lemma_name_le_transitive, name_le, name_precedes,
};
use std::slice::Iter;
use vstd::prelude::*;
use vstd::seq_lib::*;
use vstd::std_specs::iter::IteratorSpec;
use vstd::std_specs::slice::into_iter_elts;

verus! {

/// What a listing says an entry is.
#[derive(Clone, Copy, Debug, PartialEq, Eq, Structural)]
pub enum EntryKind {
    Directory,
    File,
    /// Neither a directory nor a file: a link, a device.
    Other,
}

/// One entry of a listing.
pub struct DirEntry {
    /// The path of the entry.
    pub path: String,
    /// Its file name without the extension.
    pub stem: String,
    pub kind: EntryKind,
    /// The listing of the entry, in the order in which it came, where the
    /// entry is a directory that was listed; empty otherwise.
    pub entries: Vec<DirEntry>,
}

/// A camera model as plain values: its name and the paths of its images.
pub ghost struct ModelView {
    pub name: Seq<char>,
    pub images: Seq<Seq<char>>,
}

/// A company as plain values: its name and its models.
pub ghost struct CompanyView {
    pub name: Seq<char>,
    pub models: Seq<ModelView>,
}

/// A camera model of the archive.
pub struct Model {
    pub name: String,
    /// The paths of its image files, in the order in which they were listed.
    pub image_paths: Vec<String>,
}

/// A camera manufacturer of the archive.
pub struct Company {
    pub name: String,
    /// Its camera models, in the order in which they were listed.
    pub models: Vec<Model>,
}

/// The catalogue of a sample archive.
pub struct PixlsDatabase {
    companies: Vec<Company>,
}

/// The entries that are directories.
pub open spec fn is_directory() -> spec_fn(DirEntry) -> bool {
    |e: DirEntry| e.kind == EntryKind::Directory
}

/// The entries that are files.
pub open spec fn is_file() -> spec_fn(DirEntry) -> bool {
    |e: DirEntry| e.kind == EntryKind::File
}

/// The path of an entry.
pub open spec fn path_of() -> spec_fn(DirEntry) -> Seq<char> {
    |e: DirEntry| e.path@
}

/// The model that a directory stands for: named by its stem, with the
/// files of its listing as images, in the order of the listing.
pub open spec fn model_of() -> spec_fn(DirEntry) -> ModelView {
    |e: DirEntry| ModelView { name: e.stem@, images: e.entries@.filter(is_file()).map_values(path_of()) }
}

/// The company that a directory stands for: named by its stem, with the
/// directories of its listing as models, in the order of the listing.
pub open spec fn company_of() -> spec_fn(DirEntry) -> CompanyView {
    |e: DirEntry|
        CompanyView { name: e.stem@, models: e.entries@.filter(is_directory()).map_values(model_of()) }
}

/// The companies of a listing of the archive's root: its directories, in
/// the order of the listing.
pub open spec fn companies_listed(root: Seq<DirEntry>) -> Seq<CompanyView> {
    root.filter(is_directory()).map_values(company_of())
}

/// The companies that bear `name`.
pub open spec fn named(name: Seq<char>) -> spec_fn(CompanyView) -> bool {
    |c: CompanyView| c.name == name
}

/// Every company comes before those after it, or bears their name.
pub open spec fn sorted_by_name(companies: Seq<CompanyView>) -> bool {
    forall|i: int, j: int|
        #![trigger companies[i], companies[j]]
        0 <= i < j < companies.len() ==> name_le(companies[i].name, companies[j].name)
}

/// `catalogue` holds the companies of `listed`, sorted by name, those of one
/// name in the order in which they were listed.
pub open spec fn catalogues(catalogue: Seq<CompanyView>, listed: Seq<CompanyView>) -> bool {
    &&& sorted_by_name(catalogue)
    &&& catalogue.to_multiset() == listed.to_multiset()
    &&& forall|name: Seq<char>| #[trigger]
        catalogue.filter(named(name)) == listed.filter(named(name))
}

impl View for Model {
    type V = ModelView;

    open spec fn view(&self) -> ModelView {
        ModelView { name: self.name@, images: self.image_paths.deep_view() }
    }
}

impl View for Company {
    type V = CompanyView;

    open spec fn view(&self) -> CompanyView {
        CompanyView { name: self.name@, models: self.models@.map_values(|m: Model| m@) }
    }
}

impl View for PixlsDatabase {
    type V = Seq<CompanyView>;

    closed spec fn view(&self) -> Seq<CompanyView> {
        self.companies@.map_values(|c: Company| c@)
    }
}

impl Ranked for Company {
    open spec fn rank_le(&self, other: &Self) -> bool {
        name_le(self.name@, other.name@)
    }

    fn may_precede(&self, other: &Self) -> (r: bool) {
        name_precedes(self.name.as_str(), other.name.as_str())
    }

    proof fn lemma_rank_total(a: &Self, b: &Self) {
        lemma_name_le_total(a.name@, b.name@);
    }

    proof fn lemma_rank_transitive(a: &Self, b: &Self, c: &Self) {
        lemma_name_le_transitive(a.name@, b.name@, c.name@);
    }
}

impl Model {
    /// The model that a listed directory stands for.
    pub fn from_listing(entry: &DirEntry) -> (model: Model)
        ensures
            model@ == model_of()(*entry),
    {
        let ghost listed = entry.entries@;
        let mut image_paths: Vec<String> = Vec::new();
        let mut i: usize = 0;
        proof {
            assert(listed.take(0) =~= Seq::<DirEntry>::empty());
            assert(listed.take(0).filter(is_file()) =~= Seq::<DirEntry>::empty()) by {
                reveal(Seq::filter);
            }
            assert(image_paths.deep_view() =~= listed.take(0).filter(is_file()).map_values(path_of()));
        }
        while i < entry.entries.len()
            invariant
                i <= listed.len(),
                listed == entry.entries@,
                image_paths.deep_view() == listed.take(i as int).filter(is_file()).map_values(
                    path_of(),
                ),
            decreases listed.len() - i,
        {
            let ghost before = image_paths.deep_view();
            let item = &entry.entries[i];
            proof {
                let done = listed.take(i as int);
                assert(listed.take(i + 1) =~= done.push(*item));
                done.lemma_filter_push(*item, is_file());
                done.filter(is_file()).lemma_push_map_commute(path_of(), *item);
            }
            match item.kind {
                EntryKind::File => {
                    image_paths.push(item.path.clone());
                    proof {
                        assert(image_paths.deep_view() =~= before.push(item.path@));
                    }
                },
                _ => {},
            }
            i += 1;
        }
        proof {
            assert(listed.take(i as int) =~= listed);
        }
        Model { name: entry.stem.clone(), image_paths }
    }

    /// The image paths of the model, in the order of the catalogue.
    pub fn image_iter(&self) -> (iter: Iter<'_, String>)
        ensures
            into_iter_elts(iter) == self.image_paths@,
            IteratorSpec::remaining(&iter) == self.image_paths@.as_ref(),
            IteratorSpec::decrease(&iter) is Some,
            IteratorSpec::initial_value_relation(&iter, &iter),
    {
        broadcast use vstd::std_specs::slice::axiom_spec_slice_iter;

        let iter = self.image_paths.iter();
        assert(into_iter_elts(iter) =~= self.image_paths@);
        iter
    }
}

impl Company {
    /// The company that a listed directory stands for.
    pub fn from_listing(entry: &DirEntry) -> (company: Company)
        ensures
            company@ == company_of()(*entry),
    {
        let ghost listed = entry.entries@;
        let ghost view = |m: Model| m@;
        let mut models: Vec<Model> = Vec::new();
        let mut i: usize = 0;
        proof {
            assert(listed.take(0) =~= Seq::<DirEntry>::empty());
            assert(listed.take(0).filter(is_directory()) =~= Seq::<DirEntry>::empty()) by {
                reveal(Seq::filter);
            }
            assert(models@.map_values(view) =~= listed.take(0).filter(is_directory()).map_values(
                model_of(),
            ));
        }
        while i < entry.entries.len()
            invariant
                i <= listed.len(),
                listed == entry.entries@,
                view == (|m: Model| m@),
                models@.map_values(view) == listed.take(i as int).filter(is_directory()).map_values(
                    model_of(),
                ),
            decreases listed.len() - i,
        {
            let ghost before = models@;
            let item = &entry.entries[i];
            proof {
                let done = listed.take(i as int);
                assert(listed.take(i + 1) =~= done.push(*item));
                done.lemma_filter_push(*item, is_directory());
                done.filter(is_directory()).lemma_push_map_commute(model_of(), *item);
            }
            match item.kind {
                EntryKind::Directory => {
                    let model = Model::from_listing(item);
                    proof {
                        before.lemma_push_map_commute(view, model);
                    }
                    models.push(model);
                },
                _ => {},
            }
            i += 1;
        }
        proof {
            assert(listed.take(i as int) =~= listed);
        }
        Company { name: entry.stem.clone(), models }
    }

    /// The models of the company, in the order of the catalogue.
    pub fn model_iter(&self) -> (iter: Iter<'_, Model>)
        ensures
            into_iter_elts(iter) == self.models@,
            IteratorSpec::remaining(&iter) == self.models@.as_ref(),
            IteratorSpec::decrease(&iter) is Some,
            IteratorSpec::initial_value_relation(&iter, &iter),
    {
        broadcast use vstd::std_specs::slice::axiom_spec_slice_iter;

        let iter = self.models.iter();
        assert(into_iter_elts(iter) =~= self.models@);
        iter
    }
}

proof fn lemma_filter_agrees<A>(s: Seq<A>, p: spec_fn(A) -> bool, q: spec_fn(A) -> bool)
    requires
        forall|i: int| 0 <= i < s.len() ==> p(#[trigger] s[i]) == q(s[i]),
    ensures
        s.filter(p) == s.filter(q),
    decreases s.len(),
{
    reveal(Seq::filter);
    if s.len() > 0 {
        lemma_filter_agrees(s.drop_last(), p, q);
    }
}

proof fn lemma_filter_keeps_all<A>(s: Seq<A>, p: spec_fn(A) -> bool)
    requires
        forall|i: int| 0 <= i < s.len() ==> p(#[trigger] s[i]),
    ensures
        s.filter(p) == s,
    decreases s.len(),
{
    reveal(Seq::filter);
    if s.len() > 0 {
        lemma_filter_keeps_all(s.drop_last(), p);
        assert(s.drop_last().push(s.last()) =~= s);
    }
}

proof fn lemma_filter_skips<A>(s: Seq<A>, p: spec_fn(A) -> bool, i: int)
    requires
        0 <= i < s.len(),
        !p(s[i]),
    ensures
        s.remove(i).filter(p) == s.filter(p),
    decreases s.len(),
{
    reveal(Seq::filter);
    if i == s.len() - 1 {
        assert(s.remove(i) =~= s.drop_last());
    } else {
        lemma_filter_skips(s.drop_last(), p, i);
        assert(s.remove(i).drop_last() =~= s.drop_last().remove(i));
        assert(s.remove(i).last() == s.last());
    }
}

proof fn lemma_map_keeps_multiset<A, B>(a: Seq<A>, b: Seq<A>, f: spec_fn(A) -> B)
    requires
        a.to_multiset() == b.to_multiset(),
    ensures
        a.map_values(f).to_multiset() == b.map_values(f).to_multiset(),
    decreases a.len(),
{
    broadcast use vstd::multiset::group_multiset_axioms;
    broadcast use group_to_multiset_ensures;

    a.to_multiset_ensures();
    b.to_multiset_ensures();
    assert(a.len() == b.len());
    if a.len() == 0 {
        assert(a.map_values(f) =~= b.map_values(f));
    } else {
        let x = a.last();
        assert(a.to_multiset().contains(x));
        assert(b.contains(x));
        let i = choose|i: int| 0 <= i < b.len() && b[i] == x;
        let rest_a = a.drop_last();
        let rest_b = b.remove(i);
        assert(rest_a.to_multiset() =~= a.to_multiset().remove(x)) by {
            to_multiset_remove(a, a.len() - 1);
            assert(a.remove(a.len() - 1) =~= rest_a);
        }
        assert(rest_b.to_multiset() =~= b.to_multiset().remove(x)) by {
            to_multiset_remove(b, i);
        }
        lemma_map_keeps_multiset(rest_a, rest_b, f);
        assert(a.map_values(f) =~= rest_a.map_values(f).push(f(x)));
        assert(b.map_values(f) =~= rest_b.map_values(f).insert(i, f(x)));
        to_multiset_build(rest_a.map_values(f), f(x));
        to_multiset_insert(rest_b.map_values(f), i, f(x));
    }
}

proof fn lemma_sorted_companies_catalogue(sorted: Seq<Company>, listed: Seq<Company>)
    requires
        stable_sort_of(sorted, listed),
    ensures
        catalogues(sorted.map_values(|c: Company| c@), listed.map_values(|c: Company| c@)),
{
    broadcast use vstd::multiset::group_multiset_axioms;
    broadcast use group_to_multiset_ensures;

    let view = |c: Company| c@;
    let a = sorted.map_values(view);
    let b = listed.map_values(view);
    assert(sorted_by_name(a)) by {
        assert forall|i: int, j: int| #![trigger a[i], a[j]] 0 <= i < j < a.len() implies name_le(
            a[i].name,
            a[j].name,
        ) by {
            assert(sorted[i].rank_le(&sorted[j]));
        }
    }
    lemma_map_keeps_multiset(sorted, listed, view);
    sorted.to_multiset_ensures();
    listed.to_multiset_ensures();
    assert forall|name: Seq<char>| #[trigger] a.filter(named(name)) == b.filter(named(name)) by {
        let bears = |c: Company| c@.name == name;
        lemma_filter_view_commute(sorted, bears, named(name));
        lemma_filter_view_commute(listed, bears, named(name));
        assert(sorted.map_values(|x: Company| x.view()) =~= a);
        assert(listed.map_values(|x: Company| x.view()) =~= b);
        if exists|i: int| 0 <= i < listed.len() && (#[trigger] listed[i]).name@ == name {
            let i = choose|i: int| 0 <= i < listed.len() && (#[trigger] listed[i]).name@ == name;
            let k = listed[i];
            lemma_name_le_reflexive(name);
            assert forall|j: int| 0 <= j < sorted.len() implies bears(#[trigger] sorted[j])
                == ties_with(k)(sorted[j]) by {
                if ties_with(k)(sorted[j]) {
                    lemma_name_le_antisymmetric(sorted[j].name@, k.name@);
                }
            }
            assert forall|j: int| 0 <= j < listed.len() implies bears(#[trigger] listed[j])
                == ties_with(k)(listed[j]) by {
                if ties_with(k)(listed[j]) {
                    lemma_name_le_antisymmetric(listed[j].name@, k.name@);
                }
            }
            lemma_filter_agrees(sorted, bears, ties_with(k));
            lemma_filter_agrees(listed, bears, ties_with(k));
            assert(sorted.filter(ties_with(k)) == listed.filter(ties_with(k)));
        } else {
            assert forall|j: int| 0 <= j < sorted.len() implies !bears(#[trigger] sorted[j]) by {
                assert(sorted.to_multiset().contains(sorted[j]));
                assert(listed.contains(sorted[j]));
            }
            assert(sorted.all(|c: Company| !bears(c)));
            assert(listed.all(|c: Company| !bears(c)));
            sorted.lemma_all_neg_filter_empty(bears);
            listed.lemma_all_neg_filter_empty(bears);
            assert(sorted.filter(bears) =~= listed.filter(bears));
        }
    }
}

impl PixlsDatabase {
    #[verifier::type_invariant]
    spec fn sorted(&self) -> bool {
        sorted_by_name(self.companies@.map_values(|c: Company| c@))
    }

    /// The companies, in the order of the catalogue.
    pub closed spec fn companies(&self) -> Seq<Company> {
        self.companies@
    }

    /// The view of the catalogue holds the views of its companies.
    pub proof fn lemma_view(&self)
        ensures
            self@ == Seq::new(self.companies().len(), |i: int| self.companies()[i]@),
    {
        assert(self@ =~= Seq::new(self.companies().len(), |i: int| self.companies()[i]@));
    }

    /// The catalogue of an archive, from the listing of its root: a company
    /// for every directory of the root, sorted by name; in each a model for
    /// every directory of the company; in each the files of the model.
    /// What lies deeper is not looked at.
    pub fn from_listing(root: &Vec<DirEntry>) -> (db: PixlsDatabase)
        ensures
            catalogues(db@, companies_listed(root@)),
    {
        let ghost view = |c: Company| c@;
        let mut companies: Vec<Company> = Vec::new();
        let mut i: usize = 0;
        proof {
            assert(root@.take(0) =~= Seq::<DirEntry>::empty());
            assert(root@.take(0).filter(is_directory()) =~= Seq::<DirEntry>::empty()) by {
                reveal(Seq::filter);
            }
            assert(companies@.map_values(view) =~= root@.take(0).filter(is_directory()).map_values(
                company_of(),
            ));
        }
        while i < root.len()
            invariant
                i <= root@.len(),
                view == (|c: Company| c@),
                companies@.map_values(view) == root@.take(i as int).filter(
                    is_directory(),
                ).map_values(company_of()),
            decreases root@.len() - i,
        {
            let ghost before = companies@;
            let item = &root[i];
            proof {
                let done = root@.take(i as int);
                assert(root@.take(i + 1) =~= done.push(*item));
                done.lemma_filter_push(*item, is_directory());
                done.filter(is_directory()).lemma_push_map_commute(company_of(), *item);
            }
            match item.kind {
                EntryKind::Directory => {
                    let company = Company::from_listing(item);
                    proof {
                        before.lemma_push_map_commute(view, company);
                    }
                    companies.push(company);
                },
                _ => {},
            }
            i += 1;
        }
        proof {
            assert(root@.take(i as int) =~= root@);
        }
        let ghost listed = companies@;
        let companies = stable_sort(companies);
        proof {
            lemma_sorted_companies_catalogue(companies@, listed);
        }
        PixlsDatabase { companies }
    }

    /// The companies of the catalogue, sorted by name.
    pub fn company_iter(&self) -> (iter: Iter<'_, Company>)
        ensures
            into_iter_elts(iter) == self.companies(),
            IteratorSpec::remaining(&iter) == self.companies().as_ref(),
            IteratorSpec::decrease(&iter) is Some,
            IteratorSpec::initial_value_relation(&iter, &iter),
            sorted_by_name(self@),
    {
        broadcast use vstd::std_specs::slice::axiom_spec_slice_iter;

        proof {
            use_type_invariant(self);
        }
        let iter = self.companies.iter();
        assert(into_iter_elts(iter) =~= self.companies@);
        iter
    }
}

/// The listing shows a regular archive: directories alone in the root and
/// in each of them, and files alone in each directory below those.
pub open spec fn regular_archive(root: Seq<DirEntry>) -> bool {
    forall|c: int|
        0 <= c < root.len() ==> {
            &&& (#[trigger] root[c]).kind == EntryKind::Directory
            &&& forall|m: int|
                0 <= m < root[c].entries@.len() ==> {
                    &&& (#[trigger] root[c].entries@[m]).kind == EntryKind::Directory
                    &&& forall|f: int|
                        0 <= f < root[c].entries@[m].entries@.len() ==> (
                        #[trigger] root[c].entries@[m].entries@[f]).kind == EntryKind::File
                }
        }
}

/// The catalogue of a regular archive holds exactly what the listing
/// shows: every entry of the root as a company, every entry of a company as
/// a model, every entry of a model as an image; and the companies are
/// sorted by name.
pub proof fn lemma_regular_archive_is_kept_whole(root: Seq<DirEntry>, catalogue: Seq<CompanyView>)
    requires
        regular_archive(root),
        catalogues(catalogue, companies_listed(root)),
    ensures
        sorted_by_name(catalogue),
        catalogue.len() == root.len(),
        catalogue.to_multiset() == root.map_values(company_of()).to_multiset(),
        forall|c: int|
            0 <= c < root.len() ==> (#[trigger] company_of()(root[c])).models == root[c].entries@.map_values(
                model_of(),
            ),
        forall|c: int, m: int|
            0 <= c < root.len() && 0 <= m < root[c].entries@.len() ==> (#[trigger] model_of()(
                root[c].entries@[m],
            )).images == root[c].entries@[m].entries@.map_values(path_of()),
{
    broadcast use group_to_multiset_ensures;

    lemma_filter_keeps_all(root, is_directory());
    catalogue.to_multiset_ensures();
    companies_listed(root).to_multiset_ensures();
    assert forall|c: int| 0 <= c < root.len() implies (#[trigger] company_of()(root[c])).models
        == root[c].entries@.map_values(model_of()) by {
        lemma_filter_keeps_all(root[c].entries@, is_directory());
    }
    assert forall|c: int, m: int|
        0 <= c < root.len() && 0 <= m < root[c].entries@.len() implies (#[trigger] model_of()(
        root[c].entries@[m],
    )).images == root[c].entries@[m].entries@.map_values(path_of()) by {
        lemma_filter_keeps_all(root[c].entries@[m].entries@, is_file());
    }
}

/// Only the entries of the kind that a level asks for are counted: there
/// are as many companies as the root has directories, as many models as a
/// company has directories, as many images as a model has files.
pub proof fn lemma_only_matching_entries_count(root: Seq<DirEntry>, catalogue: Seq<CompanyView>)
    requires
        catalogues(catalogue, companies_listed(root)),
    ensures
        catalogue.len() == root.filter(is_directory()).len(),
        catalogue.len() <= root.len(),
        forall|e: DirEntry| (#[trigger] company_of()(e)).models.len() == e.entries@.filter(is_directory()).len(),
        forall|e: DirEntry| (#[trigger] model_of()(e)).images.len() == e.entries@.filter(is_file()).len(),
{
    broadcast use group_to_multiset_ensures;

    catalogue.to_multiset_ensures();
    companies_listed(root).to_multiset_ensures();
    root.lemma_filter_len(is_directory());
}

/// An entry of another kind than its level asks for leaves no trace: the
/// companies of a listing are those of the listing without it, and so are
/// the models of a company and the images of a model.
pub proof fn lemma_other_entries_are_left_out(listing: Seq<DirEntry>, i: int)
    requires
        0 <= i < listing.len(),
    ensures
        listing[i].kind != EntryKind::Directory ==> listing.remove(i).filter(is_directory())
            == listing.filter(is_directory()),
        listing[i].kind != EntryKind::Directory ==> companies_listed(listing.remove(i))
            == companies_listed(listing),
        listing[i].kind != EntryKind::File ==> listing.remove(i).filter(is_file()) == listing.filter(
            is_file(),
        ),
{
    if listing[i].kind != EntryKind::Directory {
        lemma_filter_skips(listing, is_directory(), i);
    }
    if listing[i].kind != EntryKind::File {
        lemma_filter_skips(listing, is_file(), i);
    }
}

} // verus!
