use vstd::prelude::*;
use std::collections::BTreeSet;
use crate::cli::{BackupAction, Pattern, SortBy};
use crate::config::Config;
use crate::error::TodoError;
use crate::order::{
    key_le, lemma_swap_wf, lemma_swap_with_key, sort_key, stably_sorted, with_key,
};
use crate::text::{
    chars_of, contains, contains_chars, join_args, join_words, keep_nonempty, lower_of,
    lowercase, split_pieces, split_trimmed, trim, trim_all, views,
};

verus! {

broadcast use vstd::std_specs::btree::group_btree_axioms, vstd::laws_cmp::group_laws_cmp;

/// An instant in UTC: whole seconds since the Unix epoch and the nanoseconds past them.
#[derive(Clone, Copy, PartialEq, Eq, Structural, Debug)]
pub struct Timestamp {
    pub secs: i64,
    pub nanos: u32,
}

/// One task.
pub struct Todo {
    pub id: usize,
    pub desc: String,
    pub is_complete: bool,
    pub is_starred: bool,
    pub timestamp: Timestamp,
}

/// What a todo holds, with its description as characters.
pub struct TodoView {
    pub id: usize,
    pub desc: Seq<char>,
    pub is_complete: bool,
    pub is_starred: bool,
    pub timestamp: Timestamp,
}

impl View for Todo {
    type V = TodoView;

    open spec fn view(&self) -> TodoView {
        TodoView {
            id: self.id,
            desc: self.desc@,
            is_complete: self.is_complete,
            is_starred: self.is_starred,
            timestamp: self.timestamp,
        }
    }
}

/// The contents of a todo list: its todos in order and the identifiers free for reuse.
pub struct Model {
    pub items: Seq<TodoView>,
    pub avail: Set<usize>,
}

/// Some todo in `s` has identifier `id`.
pub open spec fn has_id(s: Seq<TodoView>, id: usize) -> bool {
    exists|i: int| 0 <= i < s.len() && #[trigger] s[i].id == id
}

/// The position of the todo with identifier `id`.
pub open spec fn index_of(s: Seq<TodoView>, id: usize) -> int {
    choose|i: int| 0 <= i < s.len() && #[trigger] s[i].id == id
}

/// No two todos of `s` share an identifier.
pub open spec fn unique_ids(s: Seq<TodoView>) -> bool {
    forall|i: int, j: int| 0 <= i < s.len() && 0 <= j < s.len() && i != j ==> s[i].id != s[j].id
}

/// `x` is the least element of `a`.
pub open spec fn is_least(a: Set<usize>, x: usize) -> bool {
    a.contains(x) && forall|y: usize| #[trigger] a.contains(y) ==> x <= y
}

/// The least element of a set that is not empty.
pub open spec fn least(a: Set<usize>) -> usize {
    choose|x: usize| is_least(a, x)
}

impl Model {
    /// Identifiers are unique among the todos and none of them is free; every identifier in
    /// use or free lies in `1..=n`, where `n` counts the todos and the free identifiers.
    pub open spec fn wf(self) -> bool {
        &&& unique_ids(self.items)
        &&& self.avail.finite()
        &&& forall|i: int|
            0 <= i < self.items.len() ==> !self.avail.contains(#[trigger] self.items[i].id)
        &&& forall|i: int|
            0 <= i < self.items.len() ==> 1 <= #[trigger] self.items[i].id <= self.items.len()
                + self.avail.len()
        &&& forall|x: usize| #[trigger]
            self.avail.contains(x) ==> 1 <= x <= self.items.len() + self.avail.len()
        &&& self.covers()
    }

    /// Every identifier in `1..=n` is in use or free, where `n` counts the todos and the
    /// free identifiers.
    pub open spec fn covers(self) -> bool {
        forall|x: usize|
            #![trigger has_id(self.items, x)]
            #![trigger self.avail.contains(x)]
            1 <= x <= self.items.len() + self.avail.len() ==> has_id(self.items, x)
                || self.avail.contains(x)
    }

    /// The identifier the next new todo gets: the least free one, else one past the count.
    pub open spec fn next_id(self) -> usize {
        if self.avail.is_empty() {
            (self.items.len() + 1) as usize
        } else {
            least(self.avail)
        }
    }

    /// The free identifiers once the next one is taken.
    pub open spec fn avail_after_next(self) -> Set<usize> {
        if self.avail.is_empty() {
            self.avail
        } else {
            self.avail.remove(least(self.avail))
        }
    }

    /// `t` appended under the next identifier.
    pub open spec fn add_copy(self, t: TodoView) -> Model {
        Model {
            items: self.items.push(TodoView { id: self.next_id(), ..t }),
            avail: self.avail_after_next(),
        }
    }

    /// A new, open, unstarred todo appended.
    pub open spec fn add_one(self, desc: Seq<char>, ts: Timestamp) -> Model {
        self.add_copy(
            TodoView { id: 0, desc, is_complete: false, is_starred: false, timestamp: ts },
        )
    }

    /// One new todo for each description, in order.
    pub open spec fn add_all(self, descs: Seq<Seq<char>>, ts: Timestamp) -> Model
        decreases descs.len(),
    {
        if descs.len() == 0 {
            self
        } else {
            self.add_all(descs.drop_last(), ts).add_one(descs.last(), ts)
        }
    }
}

/// A change made to the todo with a given identifier.
#[derive(Clone, Copy, PartialEq, Eq, Structural, Debug)]
pub enum Change {
    /// Marks it complete or open.
    SetComplete(bool),
    /// Flips its star.
    ToggleStar,
    /// Removes it and frees its identifier.
    Remove,
}

impl Model {
    /// The change `c` made to the todo with identifier `id`, which is present.
    pub open spec fn apply(self, id: usize, c: Change) -> Model {
        let i = index_of(self.items, id);
        let t = self.items[i];
        match c {
            Change::SetComplete(v) => Model {
                items: self.items.update(i, TodoView { is_complete: v, ..t }),
                ..self
            },
            Change::ToggleStar => Model {
                items: self.items.update(i, TodoView { is_starred: !t.is_starred, ..t }),
                ..self
            },
            Change::Remove => Model { items: self.items.remove(i), avail: self.avail.insert(id) },
        }
    }

    /// The change `c` made for each identifier in turn, stopping at the first one that no
    /// todo has; the changes made before it stay. Gives that identifier, if any.
    pub open spec fn apply_each(self, ids: Seq<usize>, c: Change) -> (Model, Option<usize>)
        decreases ids.len(),
    {
        if ids.len() == 0 {
            (self, None)
        } else if !has_id(self.items, ids[0]) {
            (self, Some(ids[0]))
        } else {
            self.apply(ids[0], c).apply_each(ids.drop_first(), c)
        }
    }

    /// The description of the todo with identifier `id`, which is present, replaced.
    pub open spec fn edit(self, id: usize, desc: Seq<char>) -> Model {
        let i = index_of(self.items, id);
        Model { items: self.items.update(i, TodoView { desc, ..self.items[i] }), ..self }
    }

    /// Copies of the todos of `snap` with the identifiers `ids` appended in turn, each under
    /// the next identifier; gives too the identifiers that `snap` lacks, in order.
    pub open spec fn restore_each(self, snap: Seq<TodoView>, ids: Seq<usize>) -> (
        Model,
        Seq<usize>,
    )
        decreases ids.len(),
    {
        if ids.len() == 0 {
            (self, Seq::empty())
        } else {
            let (m, missing) = self.restore_each(snap, ids.drop_last());
            if has_id(snap, ids.last()) {
                (m.add_copy(snap[index_of(snap, ids.last())]), missing)
            } else {
                (m, missing.push(ids.last()))
            }
        }
    }
}

/// Some query of `queries` occurs in `desc`.
pub open spec fn matches_any(desc: Seq<char>, queries: Seq<Seq<char>>) -> bool {
    exists|q: int| 0 <= q < queries.len() && contains(desc, #[trigger] queries[q])
}

/// The queries that `filter` reads from its arguments: joined by spaces, lowered, cut at
/// each `::`, each piece trimmed.
pub open spec fn query_pieces(query: Seq<Seq<char>>) -> Seq<Seq<char>> {
    trim_all(split_pieces(lower_of(join_words(query))))
}

/// The identifiers of the todos of `s`, in order, whose lowered description holds one of
/// `queries`.
pub open spec fn matching_ids(s: Seq<TodoView>, queries: Seq<Seq<char>>) -> Seq<usize>
    decreases s.len(),
{
    if s.len() == 0 {
        Seq::empty()
    } else if matches_any(lower_of(s.last().desc), queries) {
        matching_ids(s.drop_last(), queries).push(s.last().id)
    } else {
        matching_ids(s.drop_last(), queries)
    }
}

/// Whether one of `queries` occurs in `desc`.
pub fn matches_any_query(desc: &str, queries: &Vec<String>) -> (r: bool)
    ensures
        r == matches_any(desc@, views(queries@)),
{
    let d = chars_of(desc);
    let mut q: usize = 0;
    while q < queries.len()
        invariant
            d@ == desc@,
            q <= queries@.len(),
            forall|k: int| 0 <= k < q ==> !contains(desc@, #[trigger] views(queries@)[k]),
        decreases queries@.len() - q,
    {
        let n = chars_of(queries[q].as_str());
        if contains_chars(&d, &n) {
            assert(contains(desc@, views(queries@)[q as int]));
            return true;
        }
        q = q + 1;
    }
    false
}

/// The contents described by stored todos and free identifiers.
pub open spec fn parts_model(todos: Seq<Todo>, available: Seq<usize>) -> Model {
    Model { items: todos.map_values(|t: Todo| t@), avail: available.to_set() }
}

/// What the caller does once a command has been applied to the list.
pub enum Outcome {
    /// Show the whole list.
    ShowList,
    /// Show the todos with these identifiers, in this order; when there are none, say that
    /// nothing matched.
    ShowMatches(Vec<usize>),
    /// Take a snapshot if the settings ask for one, then call `reset` with its outcome.
    ResetRequested,
    /// Carry out this snapshot action; listing the snapshots when there is none.
    Backup(Option<BackupAction>),
}

/// A change's result, with the whole list to be shown on success.
pub open spec fn shown(r: Result<(), TodoError>) -> Result<Outcome, TodoError> {
    match r {
        Ok(()) => Ok(Outcome::ShowList),
        Err(e) => Err(e),
    }
}

/// The outcome of a run of changes, as `apply_each` gives it.
pub open spec fn change_result(r: Option<usize>) -> Result<(), TodoError> {
    match r {
        None => Ok(()),
        Some(k) => Err(TodoError::IdNotFound(k)),
    }
}

/// The descriptions that `add` takes from its arguments: joined by spaces, cut at each
/// `::`, trimmed, the empty ones dropped.
pub open spec fn item_descs(args: Seq<Seq<char>>) -> Seq<Seq<char>> {
    keep_nonempty(trim_all(split_pieces(join_words(args))))
}

/// Relies on `BTreeSet::pop_first`: it takes out the least element, if there is one.
#[verifier::external_body]
fn pop_least(s: &mut BTreeSet<usize>) -> (r: Option<usize>)
    ensures
        match r {
            None => old(s)@.is_empty() && final(s)@ == old(s)@,
            Some(x) => is_least(old(s)@, x) && final(s)@ == old(s)@.remove(x),
        },
{
    s.pop_first()
}

/// Whether some todo of `todos` has identifier `id`.
fn holds_id(todos: &Vec<Todo>, id: usize) -> (r: bool)
    ensures
        r == has_id(todos@.map_values(|t: Todo| t@), id),
{
    let mut i: usize = 0;
    while i < todos.len()
        invariant
            i <= todos@.len(),
            forall|k: int| 0 <= k < i ==> #[trigger] todos@[k].id != id,
        decreases todos@.len() - i,
    {
        if todos[i].id == id {
            assert(todos@.map_values(|t: Todo| t@)[i as int].id == id);
            return true;
        }
        i = i + 1;
    }
    let ghost v = todos@.map_values(|t: Todo| t@);
    assert forall|k: int| 0 <= k < v.len() implies #[trigger] v[k].id != id by {
        assert(todos@[k].id != id);
    }
    false
}

proof fn lemma_least_unique(a: Set<usize>, x: usize)
    requires
        is_least(a, x),
    ensures
        least(a) == x,
{
    let y = least(a);
    assert(is_least(a, y));
}

/// A list of todos, with the identifiers freed by removal kept for reuse.
pub struct TodoList {
    todos: Vec<Todo>,
    available_ids: BTreeSet<usize>,
    config: Config,
}

impl View for TodoList {
    type V = Model;

    closed spec fn view(&self) -> Model {
        Model { items: self.todos@.map_values(|t: Todo| t@), avail: self.available_ids@ }
    }
}

impl Default for TodoList {
    fn default() -> (r: Self)
        ensures
            r@.items.len() == 0,
            r@.avail.is_empty(),
            r.wf(),
            r.config().backup_on_reset,
    {
        TodoList { todos: Vec::new(), available_ids: BTreeSet::new(), config: Config::default() }
    }
}

impl TodoList {
    /// The list keeps its invariant (see `Model::wf`).
    pub open spec fn wf(&self) -> bool {
        self@.wf()
    }

    pub closed spec fn config_spec(&self) -> Config {
        self.config
    }

    /// The todos, in order.
    pub fn todos(&self) -> (r: &Vec<Todo>)
        ensures
            r@.map_values(|t: Todo| t@) == self@.items,
    {
        &self.todos
    }

    /// The identifiers free for reuse.
    pub fn available_ids(&self) -> (r: &BTreeSet<usize>)
        ensures
            r@ == self@.avail,
    {
        &self.available_ids
    }

    /// The settings in force.
    #[verifier::when_used_as_spec(config_spec)]
    pub fn config(&self) -> (r: Config)
        ensures
            r == self.config_spec(),
    {
        self.config
    }

    /// Replaces the settings.
    pub fn set_config(&mut self, config: Config)
        ensures
            final(self)@ == old(self)@,
            final(self).config() == config,
    {
        self.config = config;
    }

    /// The position of the todo with identifier `id`, if there is one.
    pub fn position(&self, id: usize) -> (r: Option<usize>)
        requires
            unique_ids(self@.items),
        ensures
            match r {
                Some(p) => p < self@.items.len() && p == index_of(self@.items, id) && self@.items[p as int].id
                    == id,
                None => !has_id(self@.items, id),
            },
    {
        let mut i: usize = 0;
        while i < self.todos.len()
            invariant
                unique_ids(self@.items),
                i <= self@.items.len(),
                self@.items.len() == self.todos@.len(),
                forall|k: int| 0 <= k < i ==> #[trigger] self@.items[k].id != id,
            decreases self.todos@.len() - i,
        {
            if self.todos[i].id == id {
                proof {
                    assert(self@.items[i as int].id == id);
                    assert(has_id(self@.items, id));
                    let j = index_of(self@.items, id);
                    assert(0 <= j < self@.items.len() && self@.items[j].id == id);
                    assert(unique_ids(self@.items));
                    if j != i as int {
                        assert(self@.items[j].id != self@.items[i as int].id);
                    }
                }
                return Some(i);
            }
            assert(self@.items[i as int].id != id);
            i = i + 1;
        }
        None
    }

    /// Takes the next identifier: the least free one, else one past the count of todos.
    fn allocate(&mut self) -> (r: usize)
        requires
            old(self).wf(),
            old(self).todos@.len() + 1 < usize::MAX,
        ensures
            r == old(self)@.next_id(),
            final(self).todos == old(self).todos,
            final(self).config == old(self).config,
            final(self)@.avail == old(self)@.avail_after_next(),
    {
        match pop_least(&mut self.available_ids) {
            Some(x) => {
                proof {
                    lemma_least_unique(old(self)@.avail, x);
                }
                x
            },
            None => self.todos.len() + 1,
        }
    }

    /// Appends a copy of `t` under the next identifier.
    fn push_copy(&mut self, t: Todo)
        requires
            old(self).wf(),
            old(self).todos@.len() + 1 < usize::MAX,
        ensures
            final(self)@ == old(self)@.add_copy(t@),
            final(self).wf(),
            final(self).config == old(self).config,
    {
        let ghost m = self@;
        let id = self.allocate();
        let t = Todo { id, ..t };
        self.todos.push(t);
        proof {
            assert(self@.items =~= m.add_copy(t@).items);
            lemma_add_copy_wf(m, t@);
        }
    }
}

impl TodoList {
    /// Appends one new todo per description, all created at `ts`.
    fn add_items(&mut self, descs: &Vec<String>, ts: Timestamp)
        requires
            old(self).wf(),
            old(self)@.items.len() + descs@.len() + 1 < usize::MAX,
        ensures
            final(self)@ == old(self)@.add_all(views(descs@), ts),
            final(self).wf(),
            final(self).config == old(self).config,
    {
        let ghost m = self@;
        let mut i: usize = 0;
        while i < descs.len()
            invariant
                self.wf(),
                i <= descs@.len(),
                m.items.len() + descs@.len() + 1 < usize::MAX,
                self.config == old(self).config,
                self@ == m.add_all(views(descs@.subrange(0, i as int)), ts),
                self@.items.len() == m.items.len() + i,
            decreases descs@.len() - i,
        {
            let t = Todo {
                id: 0,
                desc: descs[i].clone(),
                is_complete: false,
                is_starred: false,
                timestamp: ts,
            };
            self.push_copy(t);
            proof {
                let w = views(descs@.subrange(0, i + 1));
                assert(w.drop_last() =~= views(descs@.subrange(0, i as int)));
                assert(w.last() == descs@[i as int]@);
            }
            i = i + 1;
        }
        assert(descs@.subrange(0, descs@.len() as int) =~= descs@);
    }

    /// Adds the todos described by `args`, created at `ts`: the arguments are joined by
    /// spaces and cut at each `::`; each piece, trimmed, becomes a todo unless it is empty.
    pub fn add(&mut self, args: Vec<String>, ts: Timestamp)
        requires
            old(self).wf(),
            old(self)@.items.len() + item_descs(views(args@)).len() + 1 < usize::MAX,
        ensures
            final(self)@ == old(self)@.add_all(item_descs(views(args@)), ts),
            final(self).wf(),
            final(self).config() == old(self).config(),
    {
        let joined = join_args(&args);
        let descs = split_trimmed(joined.as_str(), true);
        self.add_items(&descs, ts);
    }
}

impl TodoList {
    /// Replaces the description of the todo with identifier `id` by the words of
    /// `description` joined with spaces.
    pub fn edit(&mut self, id: usize, description: Vec<String>) -> (r: Result<(), TodoError>)
        requires
            old(self).wf(),
        ensures
            final(self).wf(),
            final(self).config() == old(self).config(),
            has_id(old(self)@.items, id) ==> r == Ok::<(), TodoError>(()) && final(self)@
                == old(self)@.edit(id, join_words(views(description@))),
            !has_id(old(self)@.items, id) ==> r == Err::<(), TodoError>(TodoError::IdNotFound(id))
                && final(self)@ == old(self)@,
    {
        match self.position(id) {
            None => Err(TodoError::IdNotFound(id)),
            Some(p) => {
                let ghost m = self@;
                let mut t = self.todos.remove(p);
                t.desc = join_args(&description);
                self.todos.insert(p, t);
                proof {
                    assert(self@.items =~= m.edit(id, join_words(views(description@))).items);
                    assert forall|k: int| 0 <= k < self@.items.len() implies #[trigger] self@.items[k].id
                        == m.items[k].id by {}
                    assert forall|x: usize| has_id(m.items, x) implies has_id(self@.items, x) by {
                        let k = choose|k: int| 0 <= k < m.items.len() && m.items[k].id == x;
                        assert(self@.items[k].id == x);
                    }
                }
                Ok(())
            },
        }
    }

    /// Makes the change `c` to the todo with identifier `id`, found at `p`.
    fn change_at(&mut self, p: usize, id: usize, c: Change)
        requires
            old(self).wf(),
            p < old(self)@.items.len(),
            p == index_of(old(self)@.items, id),
            old(self)@.items[p as int].id == id,
        ensures
            final(self)@ == old(self)@.apply(id, c),
            final(self).wf(),
            final(self).config == old(self).config,
    {
        let ghost m = self@;
        let mut t = self.todos.remove(p);
        match c {
            Change::SetComplete(v) => {
                t.is_complete = v;
                self.todos.insert(p, t);
            },
            Change::ToggleStar => {
                t.is_starred = !t.is_starred;
                self.todos.insert(p, t);
            },
            Change::Remove => {
                self.available_ids.insert(t.id);
            },
        }
        proof {
            assert(self@.items =~= m.apply(id, c).items);
            lemma_apply_wf(m, id, c);
        }
    }

    /// Makes the change `c` to each todo named in `ids`, in turn; stops at the first
    /// identifier that no todo has, keeping the changes made before it.
    fn change_each(&mut self, ids: &Vec<usize>, c: Change) -> (r: Result<(), TodoError>)
        requires
            old(self).wf(),
        ensures
            final(self)@ == old(self)@.apply_each(ids@, c).0,
            r == change_result(old(self)@.apply_each(ids@, c).1),
            final(self).wf(),
            final(self).config() == old(self).config(),
    {
        let mut i: usize = 0;
        assert(ids@.subrange(0, ids@.len() as int) =~= ids@);
        while i < ids.len()
            invariant
                self.wf(),
                i <= ids@.len(),
                self.config == old(self).config,
                old(self)@.apply_each(ids@, c) == self@.apply_each(
                    ids@.subrange(i as int, ids@.len() as int),
                    c,
                ),
            decreases ids@.len() - i,
        {
            let id = ids[i];
            let ghost rest = ids@.subrange(i as int, ids@.len() as int);
            assert(rest[0] == id);
            assert(rest.drop_first() =~= ids@.subrange(i + 1, ids@.len() as int));
            match self.position(id) {
                None => {
                    return Err(TodoError::IdNotFound(id));
                },
                Some(p) => {
                    proof {
                        assert(has_id(self@.items, id));
                    }
                    self.change_at(p, id, c);
                },
            }
            i = i + 1;
        }
        Ok(())
    }

    /// Marks the todos named in `ids` complete, stopping at the first unknown identifier.
    pub fn done(&mut self, ids: Vec<usize>) -> (r: Result<(), TodoError>)
        requires
            old(self).wf(),
        ensures
            final(self)@ == old(self)@.apply_each(ids@, Change::SetComplete(true)).0,
            r == change_result(old(self)@.apply_each(ids@, Change::SetComplete(true)).1),
            final(self).wf(),
            final(self).config() == old(self).config(),
    {
        self.change_each(&ids, Change::SetComplete(true))
    }

    /// Marks the todos named in `ids` open, stopping at the first unknown identifier.
    pub fn undone(&mut self, ids: Vec<usize>) -> (r: Result<(), TodoError>)
        requires
            old(self).wf(),
        ensures
            final(self)@ == old(self)@.apply_each(ids@, Change::SetComplete(false)).0,
            r == change_result(old(self)@.apply_each(ids@, Change::SetComplete(false)).1),
            final(self).wf(),
            final(self).config() == old(self).config(),
    {
        self.change_each(&ids, Change::SetComplete(false))
    }

    /// Flips the star of the todos named in `ids`, stopping at the first unknown identifier.
    pub fn star(&mut self, ids: Vec<usize>) -> (r: Result<(), TodoError>)
        requires
            old(self).wf(),
        ensures
            final(self)@ == old(self)@.apply_each(ids@, Change::ToggleStar).0,
            r == change_result(old(self)@.apply_each(ids@, Change::ToggleStar).1),
            final(self).wf(),
            final(self).config() == old(self).config(),
    {
        self.change_each(&ids, Change::ToggleStar)
    }

    /// Removes the todos named in `ids`, freeing their identifiers for reuse; stops at the
    /// first unknown identifier, keeping the removals made before it.
    pub fn rm(&mut self, ids: Vec<usize>) -> (r: Result<(), TodoError>)
        requires
            old(self).wf(),
        ensures
            final(self)@ == old(self)@.apply_each(ids@, Change::Remove).0,
            r == change_result(old(self)@.apply_each(ids@, Change::Remove).1),
            final(self).wf(),
            final(self).config() == old(self).config(),
    {
        self.change_each(&ids, Change::Remove)
    }

    /// Copies into this list the todos of `snapshot` with the identifiers `ids`, in turn,
    /// each under a freshly taken identifier of this list; returns the identifiers that the
    /// snapshot lacks, which are skipped.
    pub fn restore_backup(&mut self, snapshot: &TodoList, ids: &Vec<usize>) -> (r: Vec<usize>)
        requires
            old(self).wf(),
            unique_ids(snapshot@.items),
            old(self)@.items.len() + ids@.len() + 1 < usize::MAX,
        ensures
            (final(self)@, r@) == old(self)@.restore_each(snapshot@.items, ids@),
            final(self).wf(),
            final(self).config() == old(self).config(),
    {
        let mut missing: Vec<usize> = Vec::new();
        let mut i: usize = 0;
        while i < ids.len()
            invariant
                self.wf(),
                unique_ids(snapshot@.items),
                i <= ids@.len(),
                self.config == old(self).config,
                old(self)@.items.len() + ids@.len() + 1 < usize::MAX,
                self@.items.len() <= old(self)@.items.len() + i,
                (self@, missing@) == old(self)@.restore_each(
                    snapshot@.items,
                    ids@.subrange(0, i as int),
                ),
            decreases ids@.len() - i,
        {
            let id = ids[i];
            let ghost prefix = ids@.subrange(0, i + 1);
            assert(prefix.drop_last() =~= ids@.subrange(0, i as int));
            assert(prefix.last() == id);
            match snapshot.position(id) {
                None => {
                    missing.push(id);
                },
                Some(p) => {
                    let src = &snapshot.todos[p];
                    let t = Todo {
                        id: src.id,
                        desc: src.desc.clone(),
                        is_complete: src.is_complete,
                        is_starred: src.is_starred,
                        timestamp: src.timestamp,
                    };
                    assert(t@ == snapshot@.items[p as int]);
                    self.push_copy(t);
                },
            }
            i = i + 1;
        }
        assert(ids@.subrange(0, ids@.len() as int) =~= ids@);
        missing
    }
}

/// Whether `a` comes strictly after `b` under criterion `by`.
fn key_after(a: &Todo, b: &Todo, by: SortBy) -> (r: bool)
    ensures
        r == !key_le(sort_key(a@, by), sort_key(b@, by)),
{
    match by {
        SortBy::Id => a.id > b.id,
        SortBy::Date => a.timestamp.secs > b.timestamp.secs || (a.timestamp.secs
            == b.timestamp.secs && a.timestamp.nanos > b.timestamp.nanos),
        SortBy::Done => a.is_complete && !b.is_complete,
    }
}

impl TodoList {
    /// Swaps the todos at `j - 1` and `j`, whose keys differ.
    fn swap_down(&mut self, j: usize, by: SortBy)
        requires
            old(self).wf(),
            0 < j < old(self)@.items.len(),
            sort_key(old(self)@.items[j - 1], by) != sort_key(old(self)@.items[j as int], by),
        ensures
            final(self).wf(),
            final(self).config == old(self).config,
            final(self)@ == (Model {
                items: old(self)@.items.update(j - 1, old(self)@.items[j as int]).update(
                    j as int,
                    old(self)@.items[j - 1],
                ),
                ..old(self)@
            }),
            forall|k: (int, int)| #[trigger]
                with_key(final(self)@.items, by, k) == with_key(old(self)@.items, by, k),
    {
        let ghost m = self@;
        let x = self.todos.remove(j);
        self.todos.insert(j - 1, x);
        proof {
            assert(self@.items =~= m.items.update(j - 1, m.items[j as int]).update(
                j as int,
                m.items[j - 1],
            ));
            lemma_swap_wf(m, j as int);
            assert forall|k: (int, int)| #[trigger]
                with_key(self@.items, by, k) == with_key(m.items, by, k) by {
                lemma_swap_with_key(m.items, j as int, by, k);
            }
        }
    }

    /// Sorts the todos stably by identifier, by creation time, or by completion (open ones
    /// first), the last when no criterion is given.
    pub fn sort(&mut self, sort_by: Option<SortBy>)
        requires
            old(self).wf(),
        ensures
            final(self).wf(),
            final(self).config() == old(self).config(),
            final(self)@.avail == old(self)@.avail,
            stably_sorted(
                old(self)@.items,
                final(self)@.items,
                match sort_by {
                    Some(b) => b,
                    None => SortBy::Done,
                },
            ),
    {
        let by = match sort_by {
            Some(b) => b,
            None => SortBy::Done,
        };
        let n = self.todos.len();
        let mut i: usize = 0;
        while i < n
            invariant
                self.wf(),
                self.config == old(self).config,
                n == self@.items.len(),
                i <= n,
                self@.avail == old(self)@.avail,
                forall|k: (int, int)| #[trigger]
                    with_key(self@.items, by, k) == with_key(old(self)@.items, by, k),
                forall|a: int, b: int|
                    0 <= a < b < i ==> key_le(
                        #[trigger] sort_key(self@.items[a], by),
                        #[trigger] sort_key(self@.items[b], by),
                    ),
            decreases n - i,
        {
            let mut j = i;
            while j > 0 && key_after(&self.todos[j - 1], &self.todos[j], by)
                invariant
                    self.wf(),
                    self.config == old(self).config,
                    n == self@.items.len(),
                    j <= i < n,
                    self@.avail == old(self)@.avail,
                    forall|k: (int, int)| #[trigger]
                        with_key(self@.items, by, k) == with_key(old(self)@.items, by, k),
                    forall|a: int, b: int|
                        0 <= a < b <= i && b != j && a != j ==> key_le(
                            #[trigger] sort_key(self@.items[a], by),
                            #[trigger] sort_key(self@.items[b], by),
                        ),
                    forall|b: int|
                        j < b <= i ==> !key_le(
                            #[trigger] sort_key(self@.items[b], by),
                            sort_key(self@.items[j as int], by),
                        ),
                decreases j,
            {
                let ghost before = self@.items;
                self.swap_down(j, by);
                proof {
                    let after = self@.items;
                    assert forall|a: int, b: int|
                        0 <= a < b <= i && b != j - 1 && a != j - 1 implies key_le(
                        #[trigger] sort_key(after[a], by),
                        #[trigger] sort_key(after[b], by),
                    ) by {
                        if b == j {
                            assert(after[b] == before[j - 1]);
                            if a < j - 1 {
                                assert(key_le(sort_key(before[a], by), sort_key(before[j - 1], by)));
                            }
                        } else if a == j {
                            assert(after[a] == before[j - 1]);
                            assert(key_le(sort_key(before[j - 1], by), sort_key(before[b], by)));
                        } else {
                            assert(key_le(sort_key(before[a], by), sort_key(before[b], by)));
                        }
                    }
                    assert forall|b: int| j - 1 < b <= i implies !key_le(
                        #[trigger] sort_key(after[b], by),
                        sort_key(after[j - 1], by),
                    ) by {
                        if b > j {
                            assert(!key_le(sort_key(before[b], by), sort_key(before[j as int], by)));
                        }
                    }
                }
                j = j - 1;
            }
            proof {
                let items = self@.items;
                assert forall|a: int, b: int| 0 <= a < b <= i implies key_le(
                    #[trigger] sort_key(items[a], by),
                    #[trigger] sort_key(items[b], by),
                ) by {
                    if b == j {
                        assert(key_le(sort_key(items[j - 1], by), sort_key(items[j as int], by)));
                        if a < j - 1 {
                            assert(key_le(sort_key(items[a], by), sort_key(items[j - 1], by)));
                        }
                    } else if a == j {
                        assert(!key_le(sort_key(items[b], by), sort_key(items[j as int], by)));
                    }
                }
            }
            i = i + 1;
        }
    }
}

impl TodoList {
    /// The identifiers, in list order, of the todos whose lowered description contains one
    /// of the queries read from `query` (see `query_pieces`). An empty query matches all.
    pub fn filter(&self, query: &Vec<String>) -> (r: Vec<usize>)
        ensures
            r@ == matching_ids(self@.items, query_pieces(views(query@))),
            join_words(views(query@)).len() == 0 ==> r@ == self@.items.map_values(
                |t: TodoView| t.id,
            ),
    {
        let joined = join_args(query);
        let lowered = lowercase(joined.as_str());
        let queries = split_trimmed(lowered.as_str(), false);
        proof {
            if joined@.len() == 0 {
                let q = query_pieces(views(query@));
                assert(lowered@.len() == 0);
                assert(lowered@.subrange(0, 0) =~= Seq::<char>::empty());
                assert(split_pieces(lowered@) =~= seq![Seq::<char>::empty()]);
                assert(trim(Seq::<char>::empty()) == Seq::<char>::empty());
                assert(q[0].len() == 0);
                lemma_matching_all(self@.items, q, 0);
            }
        }
        let mut r: Vec<usize> = Vec::new();
        let mut i: usize = 0;
        while i < self.todos.len()
            invariant
                i <= self@.items.len(),
                views(queries@) == query_pieces(views(query@)),
                r@ == matching_ids(self@.items.subrange(0, i as int), views(queries@)),
            decreases self@.items.len() - i,
        {
            let t = &self.todos[i];
            let d = lowercase(t.desc.as_str());
            let ghost pre = self@.items.subrange(0, i + 1);
            assert(pre.drop_last() =~= self@.items.subrange(0, i as int));
            assert(pre.last() == t@);
            if matches_any_query(d.as_str(), &queries) {
                r.push(t.id);
            }
            i = i + 1;
        }
        assert(self@.items.subrange(0, self@.items.len() as int) =~= self@.items);
        r
    }

    /// Empties the list and its free identifiers, unless `backup`, the outcome of the
    /// snapshot taken beforehand, is a failure: then nothing changes and it is returned.
    pub fn reset(&mut self, backup: Result<(), TodoError>) -> (r: Result<(), TodoError>)
        requires
            old(self).wf(),
        ensures
            r == backup,
            final(self).wf(),
            final(self).config() == old(self).config(),
            backup is Ok ==> final(self)@.items.len() == 0 && final(self)@.avail.is_empty(),
            backup is Err ==> final(self)@ == old(self)@,
    {
        if backup.is_err() {
            return backup;
        }
        self.todos.clear();
        self.available_ids.clear();
        assert(self@.items =~= Seq::<TodoView>::empty());
        backup
    }

    /// The todos and the free identifiers, in increasing order, that describe this list.
    pub fn into_parts(self) -> (r: (Vec<Todo>, Vec<usize>))
        requires
            self.wf(),
        ensures
            r.0@.map_values(|t: Todo| t@) == self@.items,
            r.1@.to_set() == self@.avail,
            forall|a: int, b: int| 0 <= a < b < r.1@.len() ==> r.1@[a] < r.1@[b],
    {
        let ghost avail = self@.avail;
        let TodoList { todos, available_ids, config: _ } = self;
        let mut rest = available_ids;
        let mut ids: Vec<usize> = Vec::new();
        while rest.len() > 0
            invariant
                rest@.finite(),
                rest@.disjoint(ids@.to_set()),
                rest@ + ids@.to_set() == avail,
                forall|a: int, b: int| 0 <= a < b < ids@.len() ==> ids@[a] < ids@[b],
                forall|a: int, y: usize|
                    #![trigger ids@[a], rest@.contains(y)]
                    0 <= a < ids@.len() && rest@.contains(y) ==> ids@[a] < y,
            decreases rest@.len(),
        {
            let ghost before = rest@;
            let ghost prev = ids@;
            match pop_least(&mut rest) {
                Some(x) => {
                    proof {
                        assert(ids@.push(x).to_set() =~= ids@.to_set().insert(x)) by {
                            assert forall|y: usize| ids@.push(x).contains(y) <==> ids@.contains(y) || y == x by {
                                if ids@.push(x).contains(y) && y != x {
                                    let k = choose|k: int| 0 <= k < ids@.len() + 1 && ids@.push(x)[k] == y;
                                    assert(ids@[k] == y);
                                }
                                if y == x {
                                    assert(ids@.push(x)[ids@.len() as int] == x);
                                }
                                if ids@.contains(y) {
                                    let k = choose|k: int| 0 <= k < ids@.len() && ids@[k] == y;
                                    assert(ids@.push(x)[k] == y);
                                }
                            }
                        }
                    }
                    ids.push(x);
                    assert forall|a: int, b: int| 0 <= a < b < ids@.len() implies ids@[a]
                        < ids@[b] by {
                        if b == prev.len() {
                            assert(before.contains(x));
                            assert(prev[a] < x);
                        }
                    }
                    assert forall|a: int, y: usize|
                        #![trigger ids@[a], rest@.contains(y)]
                        0 <= a < ids@.len() && rest@.contains(y) implies ids@[a] < y by {
                        assert(before.contains(y));
                        if a < prev.len() {
                            assert(prev[a] < y);
                        } else {
                            assert(x <= y && y != x);
                        }
                    }
                    assert(rest@ + ids@.to_set() =~= avail);
                    assert(rest@.len() < before.len());
                },
                None => {},
            }
        }
        assert(rest@ =~= Set::<usize>::empty());
        assert(ids@.to_set() =~= avail);
        (todos, ids)
    }

    /// The list made of `todos` and the free identifiers `available`, with `config`; fails
    /// with `InvalidStore` when they break the invariant (see `Model::wf`).
    pub fn from_parts(todos: Vec<Todo>, available: Vec<usize>, config: Config) -> (r: Result<
        TodoList,
        TodoError,
    >)
        ensures
            match r {
                Ok(l) => parts_model(todos@, available@).wf() && l@ == parts_model(
                    todos@,
                    available@,
                ) && l.wf() && l.config() == config,
                Err(e) => !parts_model(todos@, available@).wf() && e == TodoError::InvalidStore,
            },
    {
        let ghost m = parts_model(todos@, available@);
        let mut set: BTreeSet<usize> = BTreeSet::new();
        let mut k: usize = 0;
        while k < available.len()
            invariant
                k <= available@.len(),
                set@ == available@.subrange(0, k as int).to_set(),
                set@.finite(),
            decreases available@.len() - k,
        {
            set.insert(available[k]);
            proof {
                assert(available@.subrange(0, k + 1).to_set() =~= available@.subrange(0, k as int).to_set().insert(available@[k as int])) by {
                    let a = available@.subrange(0, k as int);
                    let b = available@.subrange(0, k + 1);
                    assert forall|y: usize| b.contains(y) <==> a.contains(y) || y == available@[k as int] by {
                        if b.contains(y) {
                            let j = choose|j: int| 0 <= j < b.len() && b[j] == y;
                            if j < k {
                                assert(a[j] == y);
                            }
                        }
                        if a.contains(y) {
                            let j = choose|j: int| 0 <= j < a.len() && a[j] == y;
                            assert(b[j] == y);
                        }
                        if y == available@[k as int] {
                            assert(b[k as int] == y);
                        }
                    }
                }
            }
            k = k + 1;
        }
        assert(available@.subrange(0, available@.len() as int) =~= available@);
        let n = todos.len();
        let free = set.len();
        let total: u128 = n as u128 + free as u128;
        let mut i: usize = 0;
        while i < n
            invariant
                m == parts_model(todos@, available@),
                n == m.items.len(),
                total == m.items.len() + m.avail.len(),
                set@ == m.avail,
                i <= n,
                forall|a: int, b: int| 0 <= a < i && 0 <= b < n && a != b ==> m.items[a].id != m.items[b].id,
                forall|a: int| 0 <= a < i ==> !m.avail.contains(#[trigger] m.items[a].id),
                forall|a: int| 0 <= a < i ==> 1 <= #[trigger] m.items[a].id <= total,
            decreases n - i,
        {
            let id = todos[i].id;
            assert(id == m.items[i as int].id);
            if id < 1 || id as u128 > total || set.contains(&id) {
                return Err(TodoError::InvalidStore);
            }
            let mut j: usize = 0;
            while j < n
                invariant
                    m == parts_model(todos@, available@),
                    n == m.items.len(),
                    i < n,
                    j <= n,
                    id == m.items[i as int].id,
                    forall|b: int| 0 <= b < j && b != i ==> m.items[b].id != id,
                decreases n - j,
            {
                if j != i && todos[j].id == id {
                    assert(m.items[j as int].id == id);
                    return Err(TodoError::InvalidStore);
                }
                j = j + 1;
            }
            i = i + 1;
        }
        let mut k: usize = 0;
        while k < available.len()
            invariant
                m == parts_model(todos@, available@),
                k <= available@.len(),
                total == m.items.len() + m.avail.len(),
                m.avail == available@.to_set(),
                forall|a: int| 0 <= a < k ==> 1 <= #[trigger] available@[a] <= total,
            decreases available@.len() - k,
        {
            let x = available[k];
            if x < 1 || x as u128 > total {
                assert(m.avail.contains(x));
                return Err(TodoError::InvalidStore);
            }
            k = k + 1;
        }
        proof {
            assert forall|x: usize| #[trigger] m.avail.contains(x) implies 1 <= x <= total by {
                let a = choose|a: int| 0 <= a < available@.len() && available@[a] == x;
                assert(1 <= available@[a] <= total);
            }
        }
        let mut x: u128 = 1;
        while x <= total && x <= usize::MAX as u128
            invariant
                m == parts_model(todos@, available@),
                set@ == m.avail,
                total == m.items.len() + m.avail.len(),
                1 <= x,
                forall|y: usize| 1 <= y < x ==> #[trigger] has_id(m.items, y) || m.avail.contains(y),
            decreases total + 1 - x,
        {
            let id = x as usize;
            if !holds_id(&todos, id) && !set.contains(&id) {
                return Err(TodoError::InvalidStore);
            }
            x = x + 1;
        }
        Ok(TodoList { todos, available_ids: set, config })
    }
}

impl TodoList {
    /// Whether the todos that `args` describes fit beside the present ones (see `add`).
    pub fn has_room_for(&self, args: &Vec<String>) -> (r: bool)
        ensures
            r == (self@.items.len() + item_descs(views(args@)).len() + 1 < usize::MAX),
    {
        let joined = join_args(args);
        let descs = split_trimmed(joined.as_str(), true);
        let n = self.todos.len();
        n < usize::MAX - 1 && descs.len() < usize::MAX - 1 - n
    }

    /// Applies a command to the list and says what is left for the caller to do: showing
    /// the list or some of its todos, a reset, or a snapshot action. Todos added are
    /// stamped with `now`.
    pub fn handle_cli(&mut self, pattern: Pattern, now: Timestamp) -> (r: Result<
        Outcome,
        TodoError,
    >)
        requires
            old(self).wf(),
            pattern matches Pattern::Add { args } ==> old(self)@.items.len() + item_descs(
                views(args@),
            ).len() + 1 < usize::MAX,
        ensures
            final(self).wf(),
            final(self).config() == old(self).config(),
            match pattern {
                Pattern::List => final(self)@ == old(self)@ && r == Ok::<Outcome, TodoError>(
                    Outcome::ShowList,
                ),
                Pattern::Add { args } => final(self)@ == old(self)@.add_all(
                    item_descs(views(args@)),
                    now,
                ) && r == Ok::<Outcome, TodoError>(Outcome::ShowList),
                Pattern::Edit { id, description } => if has_id(old(self)@.items, id) {
                    final(self)@ == old(self)@.edit(id, join_words(views(description@))) && r
                        == Ok::<Outcome, TodoError>(Outcome::ShowList)
                } else {
                    final(self)@ == old(self)@ && r == Err::<Outcome, TodoError>(
                        TodoError::IdNotFound(id),
                    )
                },
                Pattern::Filter { query } => final(self)@ == old(self)@ && match r {
                    Ok(Outcome::ShowMatches(v)) => v@ == matching_ids(
                        old(self)@.items,
                        query_pieces(views(query@)),
                    ),
                    _ => false,
                },
                Pattern::Done { args } => final(self)@ == old(self)@.apply_each(
                    args@,
                    Change::SetComplete(true),
                ).0 && r == shown(
                    change_result(old(self)@.apply_each(args@, Change::SetComplete(true)).1),
                ),
                Pattern::Undone { args } => final(self)@ == old(self)@.apply_each(
                    args@,
                    Change::SetComplete(false),
                ).0 && r == shown(
                    change_result(old(self)@.apply_each(args@, Change::SetComplete(false)).1),
                ),
                Pattern::Star { args } => final(self)@ == old(self)@.apply_each(
                    args@,
                    Change::ToggleStar,
                ).0 && r == shown(
                    change_result(old(self)@.apply_each(args@, Change::ToggleStar).1),
                ),
                Pattern::Rm { args } => final(self)@ == old(self)@.apply_each(
                    args@,
                    Change::Remove,
                ).0 && r == shown(change_result(old(self)@.apply_each(args@, Change::Remove).1)),
                Pattern::Reset => final(self)@ == old(self)@ && r == Ok::<Outcome, TodoError>(
                    Outcome::ResetRequested,
                ),
                Pattern::Sort { sort_by } => final(self)@.avail == old(self)@.avail
                    && stably_sorted(
                    old(self)@.items,
                    final(self)@.items,
                    match sort_by {
                        Some(b) => b,
                        None => SortBy::Done,
                    },
                ) && r == Ok::<Outcome, TodoError>(Outcome::ShowList),
                Pattern::Backup { name } => final(self)@ == old(self)@ && r == Ok::<
                    Outcome,
                    TodoError,
                >(Outcome::Backup(name)),
            },
    {
        match pattern {
            Pattern::List => Ok(Outcome::ShowList),
            Pattern::Add { args } => {
                self.add(args, now);
                Ok(Outcome::ShowList)
            },
            Pattern::Edit { id, description } => match self.edit(id, description) {
                Ok(()) => Ok(Outcome::ShowList),
                Err(e) => Err(e),
            },
            Pattern::Filter { query } => Ok(Outcome::ShowMatches(self.filter(&query))),
            Pattern::Done { args } => match self.done(args) {
                Ok(()) => Ok(Outcome::ShowList),
                Err(e) => Err(e),
            },
            Pattern::Undone { args } => match self.undone(args) {
                Ok(()) => Ok(Outcome::ShowList),
                Err(e) => Err(e),
            },
            Pattern::Star { args } => match self.star(args) {
                Ok(()) => Ok(Outcome::ShowList),
                Err(e) => Err(e),
            },
            Pattern::Rm { args } => match self.rm(args) {
                Ok(()) => Ok(Outcome::ShowList),
                Err(e) => Err(e),
            },
            Pattern::Reset => Ok(Outcome::ResetRequested),
            Pattern::Sort { sort_by } => {
                self.sort(sort_by);
                Ok(Outcome::ShowList)
            },
            Pattern::Backup { name } => Ok(Outcome::Backup(name)),
        }
    }
}

/// A query that is empty matches every todo.
proof fn lemma_matching_all(s: Seq<TodoView>, queries: Seq<Seq<char>>, q: int)
    requires
        0 <= q < queries.len(),
        queries[q].len() == 0,
    ensures
        matching_ids(s, queries) == s.map_values(|t: TodoView| t.id),
    decreases s.len(),
{
    if s.len() > 0 {
        lemma_matching_all(s.drop_last(), queries, q);
        assert(lower_of(s.last().desc).subrange(0, 0int + queries[q].len()) =~= queries[q]);
        assert(contains(lower_of(s.last().desc), queries[q]));
        assert(s.map_values(|t: TodoView| t.id) =~= s.drop_last().map_values(|t: TodoView| t.id).push(
            s.last().id,
        ));
    }
}

/// Filtering ignores case: two queries that lower to the same text pick the same todos.
pub proof fn lemma_filter_ignores_case(s: Seq<TodoView>, q1: Seq<Seq<char>>, q2: Seq<Seq<char>>)
    requires
        lower_of(join_words(q1)) == lower_of(join_words(q2)),
    ensures
        matching_ids(s, query_pieces(q1)) == matching_ids(s, query_pieces(q2)),
{
}

/// Adding todos and removing them keep the list well formed, so identifiers stay unique
/// among the todos and never collide with a free one.
pub proof fn lemma_ids_stay_unique(
    m: Model,
    descs: Seq<Seq<char>>,
    ts: Timestamp,
    ids: Seq<usize>,
)
    requires
        m.wf(),
        m.items.len() + descs.len() + 1 < usize::MAX,
    ensures
        m.add_all(descs, ts).wf(),
        unique_ids(m.add_all(descs, ts).items),
        m.apply_each(ids, Change::Remove).0.wf(),
        unique_ids(m.apply_each(ids, Change::Remove).0.items),
{
    lemma_add_all_wf(m, descs, ts);
    lemma_apply_each_wf(m, ids, Change::Remove);
}

proof fn lemma_add_all_wf(m: Model, descs: Seq<Seq<char>>, ts: Timestamp)
    requires
        m.wf(),
        m.items.len() + descs.len() + 1 < usize::MAX,
    ensures
        m.add_all(descs, ts).wf(),
        m.add_all(descs, ts).items.len() == m.items.len() + descs.len(),
    decreases descs.len(),
{
    if descs.len() > 0 {
        lemma_add_all_wf(m, descs.drop_last(), ts);
        let p = m.add_all(descs.drop_last(), ts);
        lemma_add_copy_wf(
            p,
            TodoView {
                id: 0,
                desc: descs.last(),
                is_complete: false,
                is_starred: false,
                timestamp: ts,
            },
        );
    }
}

proof fn lemma_apply_each_wf(m: Model, ids: Seq<usize>, c: Change)
    requires
        m.wf(),
    ensures
        m.apply_each(ids, c).0.wf(),
    decreases ids.len(),
{
    if ids.len() > 0 && has_id(m.items, ids[0]) {
        lemma_apply_wf(m, ids[0], c);
        lemma_apply_each_wf(m.apply(ids[0], c), ids.drop_first(), c);
    }
}

/// The identifier the next todo gets is positive, held by no todo, and no longer free once
/// taken; so appending a todo under it keeps identifiers unique.
pub proof fn lemma_next_id_fresh(m: Model)
    requires
        m.wf(),
        m.items.len() + 1 < usize::MAX,
    ensures
        m.next_id() >= 1,
        !has_id(m.items, m.next_id()),
        !m.avail_after_next().contains(m.next_id()),
{
    let id = m.next_id();
    if m.avail.is_empty() {
        assert(m.avail =~= Set::<usize>::empty());
        if has_id(m.items, id) {
            let k = choose|k: int| 0 <= k < m.items.len() && m.items[k].id == id;
            assert(m.items[k].id <= m.items.len() + m.avail.len());
        }
    } else {
        let x = choose|x: usize| m.avail.contains(x);
        lemma_least_exists(m.avail, x);
        let y = choose|y: usize| is_least(m.avail, y);
        lemma_least_unique(m.avail, y);
        if has_id(m.items, id) {
            let k = choose|k: int| 0 <= k < m.items.len() && m.items[k].id == id;
            assert(!m.avail.contains(m.items[k].id));
        }
    }
}

/// Adding one todo while identifiers are free gives it the least free identifier, which
/// then is free no more.
pub proof fn lemma_add_reuses_least(m: Model, descs: Seq<Seq<char>>, ts: Timestamp)
    requires
        m.wf(),
        !m.avail.is_empty(),
        descs.len() == 1,
    ensures
        ({
            let r = m.add_all(descs, ts);
            &&& r.items.len() == m.items.len() + 1
            &&& r.items.subrange(0, m.items.len() as int) == m.items
            &&& is_least(m.avail, r.items.last().id)
            &&& r.avail == m.avail.remove(r.items.last().id)
        }),
{
    let r = m.add_all(descs, ts);
    assert(descs.drop_last().len() == 0);
    assert(m.add_all(descs.drop_last(), ts) == m);
    let x = choose|x: usize| m.avail.contains(x);
    lemma_least_exists(m.avail, x);
    let y = choose|y: usize| is_least(m.avail, y);
    lemma_least_unique(m.avail, y);
    assert(r.items.subrange(0, m.items.len() as int) =~= m.items);
}

/// Filtering ignores the case of descriptions too: two lists whose todos have the same
/// identifiers and descriptions that lower to the same text give the same matches.
pub proof fn lemma_filter_ignores_description_case(
    s1: Seq<TodoView>,
    s2: Seq<TodoView>,
    queries: Seq<Seq<char>>,
)
    requires
        s1.len() == s2.len(),
        forall|i: int|
            0 <= i < s1.len() ==> s1[i].id == s2[i].id && lower_of(s1[i].desc) == lower_of(
                s2[i].desc,
            ),
    ensures
        matching_ids(s1, queries) == matching_ids(s2, queries),
    decreases s1.len(),
{
    if s1.len() > 0 {
        let d1 = s1.drop_last();
        let d2 = s2.drop_last();
        assert forall|i: int| 0 <= i < d1.len() implies d1[i].id == d2[i].id && lower_of(d1[i].desc)
            == lower_of(d2[i].desc) by {
            assert(d1[i] == s1[i] && d2[i] == s2[i]);
        }
        lemma_filter_ignores_description_case(d1, d2, queries);
        assert(s1.last() == s1[s1.len() - 1] && s2.last() == s2[s2.len() - 1]);
    }
}

/// After the todo with identifier `k` is removed, the next todo added takes the least of the
/// free identifiers, which now include `k`.
pub proof fn lemma_reuse_lowest_first(m: Model, k: usize, desc: Seq<char>, ts: Timestamp)
    requires
        m.wf(),
        has_id(m.items, k),
    ensures
        ({
            let r = m.apply_each(seq![k], Change::Remove).0;
            &&& r.avail == m.avail.insert(k)
            &&& is_least(r.avail, r.add_one(desc, ts).items.last().id)
        }),
{
    let r = m.apply_each(seq![k], Change::Remove).0;
    assert(seq![k].drop_first() =~= Seq::<usize>::empty());
    assert(seq![k][0] == k);
    assert(m.apply(k, Change::Remove).apply_each(Seq::<usize>::empty(), Change::Remove).0 == m.apply(
        k,
        Change::Remove,
    ));
    assert(r == m.apply(k, Change::Remove));
    lemma_apply_wf(m, k, Change::Remove);
    assert(r.avail.contains(k));
    lemma_least_exists(r.avail, k);
    let x = choose|x: usize| is_least(r.avail, x);
    lemma_least_unique(r.avail, x);
}

/// Saving a list and loading it back gives the same todos and free identifiers: whatever
/// parts `into_parts` hands out for a list `l` (its `ensures`), `from_parts` accepts them
/// (its `Ok` case holds exactly for parts whose model is well formed) and rebuilds a list
/// whose contents equal those of `l`.
pub proof fn lemma_save_load_round_trip(l: TodoList, todos: Vec<Todo>, available: Vec<usize>)
    requires
        l.wf(),
        todos@.map_values(|t: Todo| t@) == l@.items,
        available@.to_set() == l@.avail,
        forall|a: int, b: int| 0 <= a < b < available@.len() ==> available@[a] < available@[b],
    ensures
        parts_model(todos@, available@).wf(),
        parts_model(todos@, available@) == l@,
{
}

proof fn lemma_apply_wf(m: Model, id: usize, c: Change)
    requires
        m.wf(),
        has_id(m.items, id),
    ensures
        m.apply(id, c).wf(),
{
    let i = index_of(m.items, id);
    let r = m.apply(id, c);
    match c {
        Change::Remove => {
            assert(!m.avail.contains(id));
            assert(r.avail.len() == m.avail.len() + 1);
            assert forall|k: int| 0 <= k < r.items.len() implies #[trigger] r.items[k].id != id by {
                let kk = if k < i { k } else { k + 1 };
                assert(r.items[k] == m.items[kk]);
            }
            assert forall|k: int| 0 <= k < r.items.len() implies #[trigger] r.items[k] == m.items[
                if k < i {
                    k
                } else {
                    k + 1
                }
            ] by {}
            assert forall|x: usize| 1 <= x <= r.items.len() + r.avail.len() implies has_id(
                r.items,
                x,
            ) || r.avail.contains(x) by {
                if x != id {
                    assert(has_id(m.items, x) || m.avail.contains(x));
                    if has_id(m.items, x) {
                        let k = choose|k: int| 0 <= k < m.items.len() && m.items[k].id == x;
                        assert(k != i);
                        let kk = if k < i { k } else { k - 1 };
                        assert(r.items[kk] == m.items[k]);
                    }
                }
            }
        },
        _ => {
            assert forall|k: int| 0 <= k < r.items.len() implies #[trigger] r.items[k].id
                == m.items[k].id by {}
            assert forall|x: usize| 1 <= x <= r.items.len() + r.avail.len() implies has_id(
                r.items,
                x,
            ) || r.avail.contains(x) by {
                if has_id(m.items, x) {
                    let k = choose|k: int| 0 <= k < m.items.len() && m.items[k].id == x;
                    assert(r.items[k].id == x);
                }
            }
        },
    }
}

proof fn lemma_add_copy_wf(m: Model, t: TodoView)
    requires
        m.wf(),
        m.items.len() + 1 < usize::MAX,
    ensures
        m.add_copy(t).wf(),
{
    let r = m.add_copy(t);
    let id = m.next_id();
    if m.avail.is_empty() {
        assert(m.avail =~= Set::<usize>::empty());
        assert(m.avail.len() == 0);
        assert(id == m.items.len() + 1);
        assert forall|i: int| 0 <= i < m.items.len() implies m.items[i].id != id by {
            assert(1 <= m.items[i].id <= m.items.len() + m.avail.len());
        }
        assert(r.avail.len() == 0);
        assert forall|x: usize| 1 <= x <= r.items.len() + r.avail.len() implies has_id(r.items, x)
            || r.avail.contains(x) by {
            if x == id {
                assert(r.items[m.items.len() as int].id == id);
            } else {
                assert(has_id(m.items, x) || m.avail.contains(x));
                let k = choose|k: int| 0 <= k < m.items.len() && m.items[k].id == x;
                assert(r.items[k].id == x);
            }
        }
    } else {
        let x = choose|x: usize| m.avail.contains(x);
        assert(is_least(m.avail, least(m.avail))) by {
            lemma_least_exists(m.avail, x);
        }
        assert(m.avail.contains(id));
        assert(r.avail.len() == m.avail.len() - 1);
        assert forall|i: int| 0 <= i < m.items.len() implies m.items[i].id != id by {
            assert(!m.avail.contains(m.items[i].id));
        }
        assert forall|y: usize| 1 <= y <= r.items.len() + r.avail.len() implies has_id(r.items, y)
            || r.avail.contains(y) by {
            if y == id {
                assert(r.items[m.items.len() as int].id == id);
            } else if m.avail.contains(y) {
                assert(r.avail.contains(y));
            } else {
                assert(has_id(m.items, y));
                let k = choose|k: int| 0 <= k < m.items.len() && m.items[k].id == y;
                assert(r.items[k].id == y);
            }
        }
    }
    assert forall|i: int| 0 <= i < r.items.len() implies #[trigger] r.items[i].id == if i
        < m.items.len() {
        m.items[i].id
    } else {
        id
    } by {}
    assert(r.items.len() + r.avail.len() >= m.items.len() + m.avail.len());
    assert(unique_ids(r.items));
}

/// A finite set of identifiers that holds `x` has a least element.
pub proof fn lemma_least_exists(a: Set<usize>, x: usize)
    requires
        a.finite(),
        a.contains(x),
    ensures
        exists|y: usize| is_least(a, y),
    decreases a.len(),
{
    if exists|y: usize| a.contains(y) && y < x {
        let y = choose|y: usize| a.contains(y) && y < x;
        let b = a.remove(x);
        lemma_least_exists(b, y);
        let z = choose|z: usize| is_least(b, z);
        assert(is_least(a, z));
    } else {
        assert(is_least(a, x));
    }
}

} // verus!
