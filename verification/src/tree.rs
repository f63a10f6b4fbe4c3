//! The document tree and the path queries that read it.
//!
//! A tree is two arenas. `entries` holds every value of the document, each
//! composite value after the values it contains, the root last. `keys` holds
//! one record for each key that was read. Composite values refer to their
//! parts by index into `entries`.
//!
//! A query follows a reference only where it points to an earlier entry. In a
//! tree made by the parser every reference does ([`TreeView::wf`]), and then
//! nothing is left out.
use crate::types::Range;
use vstd::prelude::*;

verus! {

/// One member of an object: its name, the key record it was read from, and
/// the entry that holds its value.
#[derive(Debug)]
pub struct Member {
    pub name: String,
    pub key: usize,
    pub value: usize,
}

/// What an entry holds.
#[derive(Debug)]
pub enum EntryType {
    /// The members of an object. No two of them have the same name.
    JSONObject(Vec<Member>),
    /// The entries of the elements of an array, in order.
    JSONArray(Vec<usize>),
    String(String),
    Int(i64),
    /// A number that is not a 64-bit integer, kept as it was written.
    Float(String),
    Bool(bool),
    Null,
}

/// One value of the document.
#[derive(Debug)]
pub struct Entry {
    /// The key record under which the value was stored, for a value stored in
    /// an object.
    pub key: Option<usize>,
    pub range: Range,
    pub entry_type: EntryType,
}

/// One key as it was read: its name and where it stands.
#[derive(Debug)]
pub struct Key {
    pub name: String,
    pub range: Range,
}

/// A parsed document: every value in `entries`, the root last, and every key
/// that was read in `keys`.
#[derive(Debug)]
pub struct Tree {
    pub entries: Vec<Entry>,
    pub keys: Vec<Key>,
}

/// One step of a path.
#[derive(Debug)]
pub enum PathType<'input> {
    /// The member of that name, of each candidate that is an object.
    Object(&'input str),
    /// The element at that index, of each candidate that is an array.
    Array(usize),
    /// Every direct part of each candidate.
    Wildcard,
    /// Each candidate, and with it every entry below it at any depth.
    RecursiveWildcard,
}

/// The mathematical value of a [`Member`].
pub struct MemberView {
    pub name: Seq<char>,
    pub key: usize,
    pub value: usize,
}

/// The mathematical value of an [`EntryType`]: text is a sequence of
/// characters, and the members of an object and the elements of an array
/// are sequences.
pub enum ValueView {
    Object(Seq<MemberView>),
    Array(Seq<usize>),
    String(Seq<char>),
    Int(i64),
    Float(Seq<char>),
    Bool(bool),
    Null,
}

/// The mathematical value of an [`Entry`].
pub struct EntryView {
    pub key: Option<usize>,
    pub range: Range,
    pub value: ValueView,
}

/// The mathematical value of a [`Key`].
pub struct KeyView {
    pub name: Seq<char>,
    pub range: Range,
}

/// The mathematical value of a [`Tree`]: its two arenas as sequences.
pub struct TreeView {
    pub entries: Seq<EntryView>,
    pub keys: Seq<KeyView>,
}

/// The mathematical value of a [`PathType`].
pub enum PathView {
    Object(Seq<char>),
    Array(usize),
    Wildcard,
    RecursiveWildcard,
}

impl View for Member {
    type V = MemberView;

    open spec fn view(&self) -> MemberView {
        MemberView { name: self.name@, key: self.key, value: self.value }
    }
}

/// The values of a sequence of members, in order.
pub open spec fn member_views(members: Seq<Member>) -> Seq<MemberView> {
    Seq::new(members.len(), |i: int| members[i]@)
}

impl View for EntryType {
    type V = ValueView;

    open spec fn view(&self) -> ValueView {
        match *self {
            EntryType::JSONObject(members) => ValueView::Object(member_views(members@)),
            EntryType::JSONArray(items) => ValueView::Array(items@),
            EntryType::String(text) => ValueView::String(text@),
            EntryType::Int(value) => ValueView::Int(value),
            EntryType::Float(text) => ValueView::Float(text@),
            EntryType::Bool(value) => ValueView::Bool(value),
            EntryType::Null => ValueView::Null,
        }
    }
}

impl View for Entry {
    type V = EntryView;

    open spec fn view(&self) -> EntryView {
        EntryView { key: self.key, range: self.range, value: self.entry_type@ }
    }
}

impl View for Key {
    type V = KeyView;

    open spec fn view(&self) -> KeyView {
        KeyView { name: self.name@, range: self.range }
    }
}

/// The values of a sequence of entries, in order.
pub open spec fn entry_views(entries: Seq<Entry>) -> Seq<EntryView> {
    Seq::new(entries.len(), |i: int| entries[i]@)
}

/// The values of a sequence of keys, in order.
pub open spec fn key_views(keys: Seq<Key>) -> Seq<KeyView> {
    Seq::new(keys.len(), |i: int| keys[i]@)
}

impl View for Tree {
    type V = TreeView;

    open spec fn view(&self) -> TreeView {
        TreeView { entries: entry_views(self.entries@), keys: key_views(self.keys@) }
    }
}

impl<'input> View for PathType<'input> {
    type V = PathView;

    open spec fn view(&self) -> PathView {
        match *self {
            PathType::Object(name) => PathView::Object(name@),
            PathType::Array(index) => PathView::Array(index),
            PathType::Wildcard => PathView::Wildcard,
            PathType::RecursiveWildcard => PathView::RecursiveWildcard,
        }
    }
}

/// The values of the steps of a path, in order.
pub open spec fn path_views(path: Seq<PathType>) -> Seq<PathView> {
    Seq::new(path.len(), |i: int| path[i]@)
}

/// The position of the first member called `name`, if there is one.
pub open spec fn member_position(members: Seq<MemberView>, name: Seq<char>) -> Option<int>
    decreases members.len(),
{
    if members.len() == 0 {
        None
    } else {
        match member_position(members.drop_last(), name) {
            Some(at) => Some(at),
            None => if members.last().name == name {
                Some(members.len() - 1)
            } else {
                None
            },
        }
    }
}

/// Whether no two members have the same name.
pub open spec fn distinct_names(members: Seq<MemberView>) -> bool {
    forall|i: int, j: int|
        0 <= i < j < members.len() ==> (#[trigger] members[i]).name != (#[trigger] members[j]).name
}

/// Those of `refs` that are below `bound`, in order.
pub open spec fn below(refs: Seq<usize>, bound: usize) -> Seq<usize>
    decreases refs.len(),
{
    if refs.len() == 0 {
        Seq::empty()
    } else if refs.last() < bound {
        below(refs.drop_last(), bound).push(refs.last())
    } else {
        below(refs.drop_last(), bound)
    }
}

/// The entries that the members refer to, in the members' order.
pub open spec fn member_values(members: Seq<MemberView>) -> Seq<usize> {
    Seq::new(members.len(), |i: int| members[i].value)
}

/// The key records that the members were read from, in the members' order.
pub open spec fn member_keys(members: Seq<MemberView>) -> Seq<usize> {
    Seq::new(members.len(), |i: int| members[i].key)
}

impl EntryView {
    /// What the entry refers to: the values of an object's members, the
    /// elements of an array, nothing for any other value.
    pub open spec fn refs(self) -> Seq<usize> {
        match self.value {
            ValueView::Object(members) => member_values(members),
            ValueView::Array(items) => items,
            _ => Seq::empty(),
        }
    }

    /// Whether the entry fits at index `at` of a tree with `keys` key
    /// records: it refers to entries before `at` and to key records that
    /// exist, and if it is an object, no two of its members have one name.
    pub open spec fn fits(self, at: int, keys: nat) -> bool {
        &&& forall|k: int| 0 <= k < self.refs().len() ==> #[trigger] self.refs()[k] < at
        &&& self.key matches Some(key) ==> key < keys
        &&& self.value matches ValueView::Object(members) ==> {
            &&& distinct_names(members)
            &&& forall|k: int| 0 <= k < members.len() ==> (#[trigger] members[k]).key < keys
        }
    }
}

impl TreeView {
    /// Whether the tree is as the parser makes it: every entry refers to
    /// entries before it and to key records that exist, and no object has two
    /// members of one name.
    pub open spec fn wf(self) -> bool {
        forall|i: int|
            0 <= i < self.entries.len() ==> (#[trigger] self.entries[i]).fits(i, self.keys.len())
    }

    /// Whether the tree has a root that is an object stored under no key.
    pub open spec fn rooted(self) -> bool {
        &&& self.entries.len() > 0
        &&& self.entries.last().value is Object
        &&& self.entries.last().key is None
    }

    /// The direct parts of entry `i`, in order.
    pub open spec fn children(self, i: usize) -> Seq<usize> {
        below(self.entries[i as int].refs(), i)
    }

    /// Every entry below entry `i`: its direct parts first, then what is
    /// below the first of them, then what is below the second, and so on.
    pub open spec fn descendants(self, i: usize) -> Seq<usize>
        decreases i + 1, 0nat,
    {
        self.children(i) + self.descendants_of_each(self.children(i), i)
    }

    /// What is below each of `nodes` in turn, for nodes before `bound`.
    pub open spec fn descendants_of_each(self, nodes: Seq<usize>, bound: usize) -> Seq<usize>
        decreases bound, nodes.len() + 1,
    {
        if nodes.len() == 0 {
            Seq::empty()
        } else if nodes.last() < bound {
            self.descendants_of_each(nodes.drop_last(), bound) + self.descendants(nodes.last())
        } else {
            self.descendants_of_each(nodes.drop_last(), bound)
        }
    }

    /// What one candidate becomes under one step of a path.
    ///
    /// - Under a key: the value of the member of that name, for an object
    ///   that has one.
    /// - Under an index: the element at that index, for an array that is
    ///   long enough.
    /// - Under a wildcard: the direct parts.
    /// - Under a recursive wildcard: everything below.
    pub open spec fn step_one(self, step: PathView, i: usize) -> Seq<usize> {
        match step {
            PathView::Object(name) => match self.entries[i as int].value {
                ValueView::Object(members) => match member_position(members, name) {
                    Some(at) => if members[at].value < i {
                        seq![members[at].value]
                    } else {
                        Seq::empty()
                    },
                    None => Seq::empty(),
                },
                _ => Seq::empty(),
            },
            PathView::Array(index) => match self.entries[i as int].value {
                ValueView::Array(items) => if index < items.len() && items[index as int] < i {
                    seq![items[index as int]]
                } else {
                    Seq::empty()
                },
                _ => Seq::empty(),
            },
            PathView::Wildcard => self.children(i),
            PathView::RecursiveWildcard => self.descendants(i),
        }
    }

    /// What each candidate becomes under one step, one candidate after the
    /// other.
    pub open spec fn step_each(self, step: PathView, candidates: Seq<usize>) -> Seq<usize>
        decreases candidates.len(),
    {
        if candidates.len() == 0 {
            Seq::empty()
        } else {
            self.step_each(step, candidates.drop_last()) + self.step_one(step, candidates.last())
        }
    }

    /// The candidates after one step. A recursive wildcard keeps the
    /// candidates it was given and adds to them; every other step replaces
    /// them.
    pub open spec fn step(self, step: PathView, candidates: Seq<usize>) -> Seq<usize> {
        match step {
            PathView::RecursiveWildcard => candidates + self.step_each(step, candidates),
            _ => self.step_each(step, candidates),
        }
    }

    /// The candidates that a path starts from: the root, which is the last
    /// entry, or nothing in an empty tree.
    pub open spec fn roots(self) -> Seq<usize> {
        if self.entries.len() == 0 {
            Seq::empty()
        } else {
            seq![(self.entries.len() - 1) as usize]
        }
    }

    /// The entries that a path leads to from the root, by index: the steps
    /// are taken from left to right.
    pub open spec fn resolve(self, path: Seq<PathView>) -> Seq<usize>
        decreases path.len(),
    {
        if path.len() == 0 {
            self.roots()
        } else {
            self.step(path.last(), self.resolve(path.drop_last()))
        }
    }

    /// The key records that entry `i` owns, by index: those of its members,
    /// in order, if it is an object.
    pub open spec fn owned_keys(self, i: usize) -> Seq<usize> {
        match self.entries[i as int].value {
            ValueView::Object(members) => below(member_keys(members), self.keys.len() as usize),
            _ => Seq::empty(),
        }
    }

    /// The key records that each of `nodes` owns, one node after the other.
    pub open spec fn owned_keys_of_each(self, nodes: Seq<usize>) -> Seq<usize>
        decreases nodes.len(),
    {
        if nodes.len() == 0 {
            Seq::empty()
        } else {
            self.owned_keys_of_each(nodes.drop_last()) + self.owned_keys(nodes.last())
        }
    }

    /// Whether every one of `nodes` is the index of an entry.
    pub open spec fn holds(self, nodes: Seq<usize>) -> bool {
        forall|k: int| 0 <= k < nodes.len() ==> #[trigger] nodes[k] < self.entries.len()
    }
}

/// What `below` keeps is below the bound.
pub proof fn lemma_below_bound(refs: Seq<usize>, bound: usize)
    ensures
        forall|k: int| 0 <= k < below(refs, bound).len() ==> #[trigger] below(refs, bound)[k] < bound,
        below(refs, bound).len() <= refs.len(),
    decreases refs.len(),
{
    if refs.len() > 0 {
        lemma_below_bound(refs.drop_last(), bound);
    }
}

/// Where every reference is below the bound, `below` keeps them all.
pub proof fn lemma_below_keeps_all(refs: Seq<usize>, bound: usize)
    requires
        forall|k: int| 0 <= k < refs.len() ==> #[trigger] refs[k] < bound,
    ensures
        below(refs, bound) == refs,
    decreases refs.len(),
{
    if refs.len() > 0 {
        lemma_below_keeps_all(refs.drop_last(), bound);
        assert(refs.drop_last().push(refs.last()) =~= refs);
    } else {
        assert(refs =~= Seq::<usize>::empty());
    }
}

/// In a well-formed tree a query leaves nothing out: the direct parts of an
/// entry are all the entries that it refers to, a member that is found leads
/// to its value, an element that exists leads to its entry, and an object
/// owns the key record of each of its members.
pub proof fn lemma_well_formed_leaves_nothing_out(tree: TreeView, i: usize)
    requires
        tree.wf(),
        i < tree.entries.len(),
        tree.keys.len() <= usize::MAX,
    ensures
        tree.children(i) == tree.entries[i as int].refs(),
        forall|name: Seq<char>|
            tree.entries[i as int].value matches ValueView::Object(members) ==> (member_position(
                members,
                name,
            ) matches Some(at) ==> #[trigger] tree.step_one(PathView::Object(name), i) == seq![
                members[at].value,
            ]),
        forall|index: usize|
            tree.entries[i as int].value matches ValueView::Array(items) ==> (index < items.len()
                ==> #[trigger] tree.step_one(PathView::Array(index), i) == seq![
                items[index as int],
            ]),
        tree.entries[i as int].value matches ValueView::Object(members) ==> tree.owned_keys(i)
            == member_keys(members),
{
    let entry = tree.entries[i as int];
    assert(entry.fits(i as int, tree.keys.len()));
    lemma_below_keeps_all(entry.refs(), i);
    match entry.value {
        ValueView::Object(members) => {
            assert forall|name: Seq<char>| member_position(members, name) is Some implies #[trigger] tree.step_one(
                PathView::Object(name),
                i,
            ) == seq![members[member_position(members, name)->Some_0].value] by {
                lemma_member_position(members, name);
                let at = member_position(members, name)->Some_0;
                assert(entry.refs()[at] == members[at].value);
            }
            assert forall|k: int| 0 <= k < member_keys(members).len() implies #[trigger] member_keys(
                members,
            )[k] < tree.keys.len() as usize by {
                assert(members[k].key < tree.keys.len());
            }
            lemma_below_keeps_all(member_keys(members), tree.keys.len() as usize);
        },
        ValueView::Array(items) => {
            assert forall|index: usize| index < items.len() implies #[trigger] tree.step_one(
                PathView::Array(index),
                i,
            ) == seq![items[index as int]] by {
                assert(entry.refs()[index as int] == items[index as int]);
            }
        },
        _ => {},
    }
}

/// A member found among the first `n` members is the one found among all.
pub(crate) proof fn lemma_member_position_prefix(members: Seq<MemberView>, name: Seq<char>, n: int)
    requires
        0 <= n <= members.len(),
        member_position(members.take(n), name) is Some,
    ensures
        member_position(members, name) == member_position(members.take(n), name),
    decreases members.len() - n,
{
    if n < members.len() {
        assert(members.take(n + 1).drop_last() =~= members.take(n));
        lemma_member_position_prefix(members, name, n + 1);
    } else {
        assert(members.take(n) =~= members);
    }
}

/// What `member_position` finds is a member of that name, and no member
/// before it has that name; what it does not find is not there.
pub proof fn lemma_member_position(members: Seq<MemberView>, name: Seq<char>)
    ensures
        match member_position(members, name) {
            Some(at) => {
                &&& 0 <= at < members.len()
                &&& members[at].name == name
                &&& forall|k: int| 0 <= k < at ==> (#[trigger] members[k]).name != name
            },
            None => forall|k: int| 0 <= k < members.len() ==> (#[trigger] members[k]).name != name,
        },
    decreases members.len(),
{
    if members.len() > 0 {
        let front = members.drop_last();
        lemma_member_position(front, name);
        assert forall|k: int| 0 <= k < front.len() implies front[k] == members[k] by {}
        match member_position(front, name) {
            Some(at) => {
                assert(front[at] == members[at]);
                assert forall|k: int| 0 <= k < at implies (#[trigger] members[k]).name != name by {
                    assert(front[k] == members[k]);
                }
            },
            None => {
                assert forall|k: int| 0 <= k < front.len() implies (#[trigger] members[k]).name
                    != name by {
                    assert(front[k] == members[k]);
                }
            },
        }
    }
}

/// The position of the first member called `name`, if there is one.
pub fn find_member(members: &Vec<Member>, name: &String) -> (found: Option<usize>)
    ensures
        match found {
            Some(at) => member_position(member_views(members@), name@) == Some(at as int),
            None => member_position(member_views(members@), name@) is None,
        },
{
    let ghost views = member_views(members@);
    let mut k: usize = 0;
    while k < members.len()
        invariant
            k <= members.len(),
            views == member_views(members@),
            member_position(views.take(k as int), name@) is None,
        decreases members.len() - k,
    {
        proof {
            assert(views.take(k + 1).drop_last() =~= views.take(k as int));
        }
        if members[k].name == *name {
            proof {
                lemma_member_position_prefix(views, name@, k + 1);
            }
            return Some(k);
        }
        k += 1;
    }
    proof {
        assert(views.take(members.len() as int) =~= views);
    }
    None
}

impl Tree {
    /// The entries at the given indices, in that order.
    pub open spec fn entries_at(&self, at: Seq<usize>) -> Seq<&Entry> {
        Seq::new(at.len(), |k: int| &self.entries@[at[k] as int])
    }

    /// The key records at the given indices, in that order.
    pub open spec fn key_records_at(&self, at: Seq<usize>) -> Seq<&Key> {
        Seq::new(at.len(), |k: int| &self.keys@[at[k] as int])
    }

    /// The direct parts of entry `i`, in order.
    fn children_of(&self, i: usize) -> (kids: Vec<usize>)
        requires
            i < self.entries.len(),
        ensures
            kids@ == self@.children(i),
    {
        let mut kids: Vec<usize> = Vec::new();
        match &self.entries[i].entry_type {
            EntryType::JSONObject(members) => {
                let ghost refs = member_values(member_views(members@));
                let mut k: usize = 0;
                while k < members.len()
                    invariant
                        k <= members.len(),
                        refs == member_values(member_views(members@)),
                        kids@ == below(refs.take(k as int), i),
                    decreases members.len() - k,
                {
                    proof {
                        assert(refs.take(k + 1).drop_last() =~= refs.take(k as int));
                    }
                    if members[k].value < i {
                        kids.push(members[k].value);
                    }
                    k += 1;
                }
                proof {
                    assert(refs.take(members.len() as int) =~= refs);
                }
            },
            EntryType::JSONArray(items) => {
                let mut k: usize = 0;
                while k < items.len()
                    invariant
                        k <= items.len(),
                        kids@ == below(items@.take(k as int), i),
                    decreases items.len() - k,
                {
                    proof {
                        assert(items@.take(k + 1).drop_last() =~= items@.take(k as int));
                    }
                    if items[k] < i {
                        kids.push(items[k]);
                    }
                    k += 1;
                }
                proof {
                    assert(items@.take(items.len() as int) =~= items@);
                }
            },
            _ => {},
        }
        kids
    }

    /// Appends to `out` every entry below entry `i`.
    fn descend(&self, i: usize, out: &mut Vec<usize>)
        requires
            i < self.entries.len(),
        ensures
            final(out)@ == old(out)@ + self@.descendants(i),
        decreases i,
    {
        let kids = self.children_of(i);
        let mut k: usize = 0;
        proof {
            lemma_below_bound(self@.entries[i as int].refs(), i);
        }
        while k < kids.len()
            invariant
                k <= kids.len(),
                i < self.entries.len(),
                kids@ == self@.children(i),
                forall|j: int| 0 <= j < kids@.len() ==> #[trigger] kids@[j] < i,
                out@ == old(out)@ + kids@.take(k as int),
            decreases kids.len() - k,
        {
            out.push(kids[k]);
            assert(kids@.take(k + 1) =~= kids@.take(k as int).push(kids@[k as int]));
            k += 1;
        }
        assert(kids@.take(kids.len() as int) =~= kids@);
        let mut k: usize = 0;
        while k < kids.len()
            invariant
                k <= kids.len(),
                i < self.entries.len(),
                kids@ == self@.children(i),
                forall|j: int| 0 <= j < kids@.len() ==> #[trigger] kids@[j] < i,
                out@ == old(out)@ + kids@ + self@.descendants_of_each(kids@.take(k as int), i),
            decreases kids.len() - k,
        {
            proof {
                assert(kids@.take(k + 1).drop_last() =~= kids@.take(k as int));
            }
            self.descend(kids[k], out);
            k += 1;
        }
        assert(kids@.take(kids.len() as int) =~= kids@);
    }

    /// Replaces each candidate that is an object with a member called `path`
    /// by the value of that member, and drops every other candidate.
    fn handle_path(&self, entries: &Vec<usize>, path: &str) -> (found: Vec<usize>)
        requires
            self@.holds(entries@),
        ensures
            found@ == self@.step_each(PathView::Object(path@), entries@),
            self@.holds(found@),
    {
        let ghost step = PathView::Object(path@);
        let name = path.to_owned();
        let mut found: Vec<usize> = Vec::new();
        let mut n: usize = 0;
        while n < entries.len()
            invariant
                n <= entries.len(),
                name@ == path@,
                step == PathView::Object(path@),
                self@.holds(entries@),
                self@.holds(found@),
                found@ == self@.step_each(step, entries@.take(n as int)),
            decreases entries.len() - n,
        {
            let i = entries[n];
            let ghost old_found = found@;
            proof {
                assert(entries@.take(n + 1).drop_last() =~= entries@.take(n as int));
                lemma_step_one_below(self@, step, i);
                assert(found@ + Seq::<usize>::empty() =~= found@);
            }
            if let EntryType::JSONObject(members) = &self.entries[i].entry_type {
                if let Some(at) = find_member(members, &name) {
                    proof {
                        lemma_member_position(member_views(members@), name@);
                    }
                    if members[at].value < i {
                        found.push(members[at].value);
                        assert(found@ =~= old_found + seq![members[at as int].value]);
                    }
                }
            }
            n += 1;
        }
        proof {
            assert(entries@.take(entries.len() as int) =~= entries@);
        }
        found
    }

    /// Replaces each candidate that is an array longer than `pos` by its
    /// element at `pos`, and drops every other candidate.
    fn handle_array(&self, entries: &Vec<usize>, pos: usize) -> (found: Vec<usize>)
        requires
            self@.holds(entries@),
        ensures
            found@ == self@.step_each(PathView::Array(pos), entries@),
            self@.holds(found@),
    {
        let ghost step = PathView::Array(pos);
        let mut found: Vec<usize> = Vec::new();
        let mut n: usize = 0;
        while n < entries.len()
            invariant
                n <= entries.len(),
                step == PathView::Array(pos),
                self@.holds(entries@),
                self@.holds(found@),
                found@ == self@.step_each(step, entries@.take(n as int)),
            decreases entries.len() - n,
        {
            let i = entries[n];
            let ghost old_found = found@;
            proof {
                assert(entries@.take(n + 1).drop_last() =~= entries@.take(n as int));
                lemma_step_one_below(self@, step, i);
                assert(found@ + Seq::<usize>::empty() =~= found@);
            }
            if let EntryType::JSONArray(items) = &self.entries[i].entry_type {
                if pos < items.len() {
                    if items[pos] < i {
                        found.push(items[pos]);
                        assert(found@ =~= old_found + seq![items@[pos as int]]);
                    }
                }
            }
            n += 1;
        }
        proof {
            assert(entries@.take(entries.len() as int) =~= entries@);
        }
        found
    }

    /// Replaces each candidate by its direct parts.
    fn handle_wildcard(&self, entries: &Vec<usize>) -> (found: Vec<usize>)
        requires
            self@.holds(entries@),
        ensures
            found@ == self@.step_each(PathView::Wildcard, entries@),
            self@.holds(found@),
    {
        let mut found: Vec<usize> = Vec::new();
        let mut n: usize = 0;
        while n < entries.len()
            invariant
                n <= entries.len(),
                self@.holds(entries@),
                self@.holds(found@),
                found@ == self@.step_each(PathView::Wildcard, entries@.take(n as int)),
            decreases entries.len() - n,
        {
            let i = entries[n];
            proof {
                assert(entries@.take(n + 1).drop_last() =~= entries@.take(n as int));
                lemma_step_one_below(self@, PathView::Wildcard, i);
            }
            let ghost before = found@;
            let mut kids = self.children_of(i);
            found.append(&mut kids);
            proof {
                assert(self@.step_one(PathView::Wildcard, i) == self@.children(i));
                lemma_holds_concat(self@, before, self@.children(i), i);
            }
            n += 1;
        }
        proof {
            assert(entries@.take(entries.len() as int) =~= entries@);
        }
        found
    }

    /// Replaces each candidate by everything below it.
    fn handle_recursive_wildcard(&self, entries: &Vec<usize>) -> (found: Vec<usize>)
        requires
            self@.holds(entries@),
        ensures
            found@ == self@.step_each(PathView::RecursiveWildcard, entries@),
            self@.holds(found@),
    {
        let mut found: Vec<usize> = Vec::new();
        let mut n: usize = 0;
        while n < entries.len()
            invariant
                n <= entries.len(),
                self@.holds(entries@),
                self@.holds(found@),
                found@ == self@.step_each(PathView::RecursiveWildcard, entries@.take(n as int)),
            decreases entries.len() - n,
        {
            let i = entries[n];
            proof {
                assert(entries@.take(n + 1).drop_last() =~= entries@.take(n as int));
                lemma_step_one_below(self@, PathView::RecursiveWildcard, i);
            }
            let ghost before = found@;
            self.descend(i, &mut found);
            proof {
                assert(self@.step_one(PathView::RecursiveWildcard, i) == self@.descendants(i));
                lemma_holds_concat(self@, before, self@.descendants(i), i);
            }
            n += 1;
        }
        proof {
            assert(entries@.take(entries.len() as int) =~= entries@);
        }
        found
    }

    /// The entries that `path` leads to from the root, by index.
    fn resolve_path(&self, path: &[PathType]) -> (found: Vec<usize>)
        ensures
            found@ == self@.resolve(path_views(path@)),
            self@.holds(found@),
    {
        let ghost steps = path_views(path@);
        let mut found: Vec<usize> = Vec::new();
        if self.entries.len() > 0 {
            found.push(self.entries.len() - 1);
        }
        assert(found@ =~= self@.roots());
        assert(steps.take(0) =~= Seq::<PathView>::empty());
        let mut n: usize = 0;
        while n < path.len()
            invariant
                n <= path.len(),
                steps == path_views(path@),
                self@.holds(found@),
                found@ == self@.resolve(steps.take(n as int)),
            decreases path.len() - n,
        {
            proof {
                assert(steps.take(n + 1).drop_last() =~= steps.take(n as int));
                assert(steps.take(n + 1).last() == path@[n as int]@);
            }
            found =
            match &path[n] {
                PathType::Object(name) => self.handle_path(&found, name),
                PathType::Array(pos) => self.handle_array(&found, *pos),
                PathType::Wildcard => self.handle_wildcard(&found),
                PathType::RecursiveWildcard => {
                    let mut more = self.handle_recursive_wildcard(&found);
                    found.append(&mut more);
                    found
                },
            };
            n += 1;
        }
        proof {
            assert(steps.take(path.len() as int) =~= steps);
        }
        found
    }

    /// The entries that `path` leads to from the root.
    ///
    /// The steps are taken from left to right, starting from the root alone.
    /// An empty path gives the root; a path that matches nothing gives an
    /// empty list.
    pub fn value_at(&self, path: &[PathType]) -> (found: Vec<&Entry>)
        ensures
            self@.holds(self@.resolve(path_views(path@))),
            found@ == self.entries_at(self@.resolve(path_views(path@))),
    {
        let at = self.resolve_path(path);
        let mut found: Vec<&Entry> = Vec::new();
        let mut n: usize = 0;
        while n < at.len()
            invariant
                n <= at.len(),
                self@.holds(at@),
                found@ == self.entries_at(at@.take(n as int)),
            decreases at.len() - n,
        {
            found.push(&self.entries[at[n]]);
            assert(found@ =~= self.entries_at(at@.take(n + 1)));
            n += 1;
        }
        proof {
            assert(at@.take(at.len() as int) =~= at@);
        }
        found
    }

    /// The key records owned by the objects that `path` leads to: for each
    /// such object in turn, the key record of each of its members.
    pub fn keys_at(&self, path: &[PathType]) -> (found: Vec<&Key>)
        ensures
            found@ == self.key_records_at(
                self@.owned_keys_of_each(self@.resolve(path_views(path@))),
            ),
    {
        let at = self.resolve_path(path);
        let mut found: Vec<&Key> = Vec::new();
        let ghost mut owned: Seq<usize> = Seq::empty();
        let mut n: usize = 0;
        assert(found@ =~= self.key_records_at(owned));
        while n < at.len()
            invariant
                n <= at.len(),
                self@.holds(at@),
                owned == self@.owned_keys_of_each(at@.take(n as int)),
                found@ == self.key_records_at(owned),
            decreases at.len() - n,
        {
            proof {
                assert(at@.take(n + 1).drop_last() =~= at@.take(n as int));
            }
            if let EntryType::JSONObject(members) = &self.entries[at[n]].entry_type {
                let ghost refs = member_keys(member_views(members@));
                let ghost before = owned;
                let mut k: usize = 0;
                assert(before + below(refs.take(0), self.keys.len()) =~= before);
                while k < members.len()
                    invariant
                        k <= members.len(),
                        refs == member_keys(member_views(members@)),
                        owned == before + below(refs.take(k as int), self.keys.len()),
                        found@ == self.key_records_at(owned),
                    decreases members.len() - k,
                {
                    proof {
                        assert(refs.take(k + 1).drop_last() =~= refs.take(k as int));
                    }
                    if members[k].key < self.keys.len() {
                        found.push(&self.keys[members[k].key]);
                        proof {
                            owned = owned.push(members[k as int].key);
                            assert(owned =~= before + below(refs.take(k + 1), self.keys.len()));
                            assert(found@ =~= self.key_records_at(owned));
                        }
                    }
                    k += 1;
                }
                proof {
                    assert(refs.take(members.len() as int) =~= refs);
                }
            } else {
                proof {
                    assert(owned + Seq::<usize>::empty() =~= owned);
                }
            }
            n += 1;
        }
        proof {
            assert(at@.take(at.len() as int) =~= at@);
        }
        found
    }
}

/// Indices of entries, followed by indices that come before one, are indices
/// of entries.
proof fn lemma_holds_concat(tree: TreeView, front: Seq<usize>, back: Seq<usize>, i: usize)
    requires
        tree.holds(front),
        i < tree.entries.len(),
        forall|k: int| 0 <= k < back.len() ==> #[trigger] back[k] < i,
    ensures
        tree.holds(front + back),
{
    assert forall|k: int| 0 <= k < (front + back).len() implies #[trigger] (front + back)[k]
        < tree.entries.len() by {
        if k < front.len() {
            assert((front + back)[k] == front[k]);
        } else {
            assert((front + back)[k] == back[k - front.len()]);
        }
    }
}

/// Everything below an entry comes before it.
pub proof fn lemma_descendants_below(tree: TreeView, i: usize)
    ensures
        forall|k: int|
            0 <= k < tree.descendants(i).len() ==> #[trigger] tree.descendants(i)[k] < i,
    decreases i + 1, 0nat,
{
    let kids = tree.children(i);
    let deeper = tree.descendants_of_each(kids, i);
    lemma_below_bound(tree.entries[i as int].refs(), i);
    lemma_descendants_of_each_below(tree, kids, i);
    assert forall|k: int| 0 <= k < tree.descendants(i).len() implies #[trigger] tree.descendants(
        i,
    )[k] < i by {
        if k < kids.len() {
            assert((kids + deeper)[k] == kids[k]);
        } else {
            assert((kids + deeper)[k] == deeper[k - kids.len()]);
        }
    }
}

/// Everything below entries that come before `bound` comes before `bound`.
pub(crate) proof fn lemma_descendants_of_each_below(tree: TreeView, nodes: Seq<usize>, bound: usize)
    ensures
        forall|k: int|
            0 <= k < tree.descendants_of_each(nodes, bound).len()
                ==> #[trigger] tree.descendants_of_each(nodes, bound)[k] < bound,
    decreases bound, nodes.len() + 1,
{
    if nodes.len() > 0 {
        let front = tree.descendants_of_each(nodes.drop_last(), bound);
        lemma_descendants_of_each_below(tree, nodes.drop_last(), bound);
        if nodes.last() < bound {
            let last = tree.descendants(nodes.last());
            lemma_descendants_below(tree, nodes.last());
            assert forall|k: int| 0 <= k < (front + last).len() implies #[trigger] (front + last)[k]
                < bound by {
                if k < front.len() {
                    assert((front + last)[k] == front[k]);
                } else {
                    assert((front + last)[k] == last[k - front.len()]);
                }
            }
        }
    }
}

/// Whatever a step makes of a candidate comes before that candidate.
pub proof fn lemma_step_one_below(tree: TreeView, step: PathView, i: usize)
    ensures
        forall|k: int|
            0 <= k < tree.step_one(step, i).len() ==> #[trigger] tree.step_one(step, i)[k] < i,
{
    lemma_descendants_below(tree, i);
    lemma_below_bound(tree.entries[i as int].refs(), i);
}

} // verus!
