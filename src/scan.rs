//! Depth-first search for target directories, as a state machine.
//!
//! The scanner never touches the file system itself. It asks for one
//! directory listing at a time ([`ScanAction::ReadDir`]), and the caller
//! answers with the entries of that directory ([`Scanner::on_listing`]) or
//! with the error that reading it gave ([`Scanner::on_failure`]), which ends
//! the scan. Paths are `/`-separated text: a child's path is its parent's
//! path, a `/`, and the entry's name.
//!
//! A directory whose path contains the target name is recorded and not
//! descended into (stop-at-match); any other directory is listed in turn.
//! Files are never candidates. The walk is pre-order: an explicit stack holds
//! the directories still to examine, the first entry of a listing on top.
use vstd::prelude::*;

verus! {

/// One entry of a directory listing.
#[derive(Clone, Debug)]
pub struct DirEntry {
    /// The entry's own name, without any separator.
    pub name: String,
    pub is_directory: bool,
}

/// What the scanner asks for next.
#[derive(Clone, Debug, PartialEq, Eq)]
pub enum ScanAction {
    /// List the directory at this path and hand its entries back.
    ReadDir(String),
    /// The scan is complete.
    Finished,
}

/// A directory could not be read; the whole scan is abandoned.
#[derive(Clone, Debug, PartialEq, Eq)]
pub struct ScanError {
    pub path: String,
    pub cause: String,
}

/// `t` occurs in `s` starting at index `i`.
pub open spec fn occurs_at(s: Seq<char>, t: Seq<char>, i: int) -> bool {
    0 <= i && i + t.len() <= s.len() && s.subrange(i, i + t.len()) == t
}

/// `t` is a substring of `s`.
pub open spec fn contains(s: Seq<char>, t: Seq<char>) -> bool {
    exists|i: int| occurs_at(s, t, i)
}

/// A name that can stand for one path component.
pub open spec fn valid_name(n: Seq<char>) -> bool {
    n.len() > 0 && forall|i: int| 0 <= i < n.len() ==> n[i] != '/'
}

/// Path of the entry named `n` inside the directory at `d`.
pub open spec fn child_path(d: Seq<char>, n: Seq<char>) -> Seq<char> {
    d + seq!['/'] + n
}

/// `a` lies strictly inside the directory at `b`.
pub open spec fn nested_under(a: Seq<char>, b: Seq<char>) -> bool {
    b.len() < a.len() && a.subrange(0, b.len() as int) == b && a[b.len() as int] == '/'
}

/// A directory that the walk lists: the root, or a directory below it whose
/// path does not contain the target.
pub open spec fn open_dir(d: Seq<char>, root: Seq<char>, target: Seq<char>) -> bool {
    d == root || (d.len() > root.len() && !contains(d, target))
}

/// `x` is an entry of a directory that the walk lists.
pub open spec fn placed(x: Seq<char>, root: Seq<char>, target: Seq<char>) -> bool {
    exists|d: Seq<char>, n: Seq<char>|
        #[trigger] child_path(d, n) == x && open_dir(d, root, target) && valid_name(n)
}

/// Child paths of the directories among `es`, listed in `d`, last entry
/// first: the order in which they are pushed so that the first is on top.
pub open spec fn pushed_dirs(d: Seq<char>, es: Seq<DirEntry>) -> Seq<Seq<char>>
    decreases es.len(),
{
    if es.len() == 0 {
        Seq::empty()
    } else {
        let rest = pushed_dirs(d, es.drop_first());
        if es[0].is_directory {
            rest.push(child_path(d, es[0].name@))
        } else {
            rest
        }
    }
}

/// Pops the stack until a directory that must be listed comes up: matching
/// paths go to `found`. Yields the new stack, the new found list and the
/// directory to list next, if any.
pub open spec fn advance(stack: Seq<Seq<char>>, found: Seq<Seq<char>>, target: Seq<char>) -> (
    Seq<Seq<char>>,
    Seq<Seq<char>>,
    Option<Seq<char>>,
)
    decreases stack.len(),
{
    if stack.len() == 0 {
        (stack, found, None)
    } else {
        let x = stack.last();
        if contains(x, target) {
            advance(stack.drop_last(), found.push(x), target)
        } else {
            (stack.drop_last(), found, Some(x))
        }
    }
}

/// Text of each path in a list.
pub open spec fn views(v: Seq<String>) -> Seq<Seq<char>> {
    v.map_values(|s: String| s@)
}

/// Search state: the directories still to examine, the targets found so far
/// and the directory whose listing is awaited.
pub struct Scanner {
    root: String,
    target: String,
    stack: Vec<String>,
    found: Vec<String>,
    awaiting: Option<String>,
    reported: Ghost<Set<Seq<char>>>,
}

impl Scanner {
    pub closed spec fn root_view(&self) -> Seq<char> {
        self.root@
    }

    pub closed spec fn target_view(&self) -> Seq<char> {
        self.target@
    }

    /// Paths still to examine, the next one last.
    pub closed spec fn stack_view(&self) -> Seq<Seq<char>> {
        views(self.stack@)
    }

    /// Targets found so far, in order.
    pub closed spec fn found_view(&self) -> Seq<Seq<char>> {
        views(self.found@)
    }

    /// The directory whose listing is awaited; `None` once finished.
    pub closed spec fn awaiting_view(&self) -> Option<Seq<char>> {
        match self.awaiting {
            Some(d) => Some(d@),
            None => None,
        }
    }

    /// Every path that some listing reported as a directory.
    pub closed spec fn reported_dirs(&self) -> Set<Seq<char>> {
        self.reported@
    }

    pub open spec fn wf(&self) -> bool {
        let root = self.root_view();
        let t = self.target_view();
        &&& (self.awaiting_view() matches Some(d) ==> open_dir(d, root, t))
        &&& forall|i: int|
            0 <= i < self.stack_view().len() ==> placed(#[trigger] self.stack_view()[i], root, t)
                && self.reported_dirs().contains(self.stack_view()[i])
        &&& forall|i: int|
            0 <= i < self.found_view().len() ==> placed(#[trigger] self.found_view()[i], root, t)
                && contains(self.found_view()[i], t) && self.reported_dirs().contains(
                self.found_view()[i],
            )
    }

    /// A scan of the directory at `root` for directories whose path contains
    /// `target`; the first action is to list `root`.
    pub fn new(root: String, target: String) -> (s: Scanner)
        ensures
            s.wf(),
            s.root_view() == root@,
            s.target_view() == target@,
            s.stack_view().len() == 0,
            s.found_view().len() == 0,
            s.awaiting_view() == Some(root@),
            s.reported_dirs() == Set::<Seq<char>>::empty(),
    {
        let s = Scanner {
            root: root.clone(),
            target,
            stack: Vec::new(),
            found: Vec::new(),
            awaiting: Some(root),
            reported: Ghost(Set::empty()),
        };
        assert(s.stack_view() =~= Seq::empty());
        assert(s.found_view() =~= Seq::empty());
        s
    }

    /// The action that the scanner waits on.
    pub fn next_action(&self) -> (a: ScanAction)
        ensures
            self.awaiting_view() is None <==> a is Finished,
            a matches ScanAction::ReadDir(d) ==> self.awaiting_view() == Some(d@),
    {
        match &self.awaiting {
            Some(d) => ScanAction::ReadDir(d.clone()),
            None => ScanAction::Finished,
        }
    }

    /// Takes the listing of the awaited directory: its subdirectories are put
    /// on the stack, first entry on top, then the stack is popped until a
    /// directory to list comes up, recording each matching path on the way.
    pub fn on_listing(&mut self, entries: &Vec<DirEntry>) -> (a: ScanAction)
        requires
            old(self).wf(),
            old(self).awaiting_view() is Some,
            forall|i: int| 0 <= i < entries@.len() ==> valid_name(#[trigger] entries@[i].name@),
        ensures
            final(self).wf(),
            final(self).root_view() == old(self).root_view(),
            final(self).target_view() == old(self).target_view(),
            ({
                let d = old(self).awaiting_view()->Some_0;
                let next = advance(
                    old(self).stack_view() + pushed_dirs(d, entries@),
                    old(self).found_view(),
                    old(self).target_view(),
                );
                &&& final(self).stack_view() == next.0
                &&& final(self).found_view() == next.1
                &&& final(self).awaiting_view() == next.2
            }),
            final(self).awaiting_view() is None <==> a is Finished,
            a matches ScanAction::ReadDir(d) ==> final(self).awaiting_view() == Some(d@),
    {
        let ghost root = self.root@;
        let ghost t = self.target@;
        let d = match self.awaiting.take() {
            Some(d) => d,
            None => {
                assert(false);
                String::new()
            },
        };
        let ghost start = self.stack_view() + pushed_dirs(d@, entries@);
        let mut i: usize = entries.len();
        while i > 0
            invariant
                i <= entries@.len(),
                self.root@ == root,
                self.target@ == t,
                open_dir(d@, root, t),
                forall|j: int| 0 <= j < entries@.len() ==> valid_name(#[trigger] entries@[j].name@),
                views(self.stack@) == old(self).stack_view() + pushed_dirs(
                    d@,
                    entries@.subrange(i as int, entries@.len() as int),
                ),
                self.found == old(self).found,
                self.awaiting is None,
                forall|j: int|
                    0 <= j < views(self.stack@).len() ==> placed(
                        #[trigger] views(self.stack@)[j],
                        root,
                        t,
                    ) && self.reported@.contains(views(self.stack@)[j]),
                forall|j: int|
                    0 <= j < old(self).found_view().len() ==> self.reported@.contains(
                        #[trigger] old(self).found_view()[j],
                    ),
            decreases i,
        {
            i = i - 1;
            let e = &entries[i];
            proof {
                let sub = entries@.subrange(i as int, entries@.len() as int);
                assert(sub.drop_first() =~= entries@.subrange(i as int + 1, entries@.len() as int));
                assert(sub[0] == entries@[i as int]);
            }
            if e.is_directory {
                let mut c = d.clone();
                c.append("/");
                c.append(e.name.as_str());
                proof {
                    reveal_strlit("/");
                    assert(c@ =~= child_path(d@, e.name@));
                    assert(valid_name(entries@[i as int].name@));
                    assert(placed(c@, root, t));
                    self.reported@ = self.reported@.insert(c@);
                }
                let ghost prev = self.stack@;
                self.stack.push(c);
                assert(views(self.stack@) =~= views(prev).push(c@));
            }
        }
        assert(entries@.subrange(0, entries@.len() as int) =~= entries@);
        assert(views(self.stack@) == start);
        loop
            invariant_except_break
                self.awaiting is None,
                advance(views(self.stack@), views(self.found@), t) == advance(
                    start,
                    old(self).found_view(),
                    t,
                ),
            invariant
                self.root@ == root,
                self.target@ == t,
                forall|j: int|
                    0 <= j < views(self.stack@).len() ==> placed(
                        #[trigger] views(self.stack@)[j],
                        root,
                        t,
                    ) && self.reported@.contains(views(self.stack@)[j]),
                forall|j: int|
                    0 <= j < views(self.found@).len() ==> placed(
                        #[trigger] views(self.found@)[j],
                        root,
                        t,
                    ) && contains(views(self.found@)[j], t) && self.reported@.contains(
                        views(self.found@)[j],
                    ),
            ensures
                advance(start, old(self).found_view(), t) == (
                    views(self.stack@),
                    views(self.found@),
                    self.awaiting_view(),
                ),
                self.root@ == root,
                self.target@ == t,
                forall|j: int|
                    0 <= j < views(self.stack@).len() ==> placed(
                        #[trigger] views(self.stack@)[j],
                        root,
                        t,
                    ) && self.reported@.contains(views(self.stack@)[j]),
                forall|j: int|
                    0 <= j < views(self.found@).len() ==> placed(
                        #[trigger] views(self.found@)[j],
                        root,
                        t,
                    ) && contains(views(self.found@)[j], t) && self.reported@.contains(
                        views(self.found@)[j],
                    ),
                self.awaiting_view() matches Some(x) ==> open_dir(x, root, t),
            decreases self.stack@.len(),
        {
            let ghost before = views(self.stack@);
            match self.stack.pop() {
                None => {
                    assert(before.len() == 0);
                    break ;
                },
                Some(x) => {
                    assert(views(self.stack@) =~= before.drop_last());
                    assert(x@ == before.last());
                    assert(placed(before[before.len() - 1], root, t));
                    if string_contains(&x, &self.target) {
                        let ghost fprev = views(self.found@);
                        self.found.push(x);
                        assert(views(self.found@) =~= fprev.push(before.last()));
                    } else {
                        proof {
                            lemma_placed_open(x@, root, t);
                        }
                        self.awaiting = Some(x);
                        break ;
                    }
                },
            }
        }
        self.next_action()
    }

    /// Ends the scan with the error that reading the awaited directory gave.
    pub fn on_failure(self, cause: String) -> (e: ScanError)
        requires
            self.awaiting_view() is Some,
        ensures
            Some(e.path@) == self.awaiting_view(),
            e.cause == cause,
    {
        match self.awaiting {
            Some(path) => ScanError { path, cause },
            None => {
                assert(false);
                ScanError { path: String::new(), cause }
            },
        }
    }

    /// The targets found, in the order the walk met them.
    pub fn into_targets(self) -> (r: Vec<String>)
        ensures
            views(r@) == self.found_view(),
    {
        self.found
    }
}

/// A path that is an entry of a listed directory and does not contain the
/// target is itself listed.
proof fn lemma_placed_open(x: Seq<char>, root: Seq<char>, t: Seq<char>)
    requires
        placed(x, root, t),
        !contains(x, t),
    ensures
        open_dir(x, root, t),
{
    let (d, n) = choose|d: Seq<char>, n: Seq<char>|
        #[trigger] child_path(d, n) == x && open_dir(d, root, t) && valid_name(n);
    assert(x.len() > d.len());
}

/// A path that contains `t` within its first `k` characters contains it.
proof fn lemma_contains_prefix(s: Seq<char>, k: int, t: Seq<char>)
    requires
        0 <= k <= s.len(),
        contains(s.subrange(0, k), t),
    ensures
        contains(s, t),
{
    let p = s.subrange(0, k);
    let i = choose|i: int| occurs_at(p, t, i);
    assert(p.subrange(i, i + t.len()) =~= s.subrange(i, i + t.len()));
    assert(occurs_at(s, t, i));
}

/// Two entries of listed directories that both contain the target are never
/// one inside the other.
pub proof fn lemma_matches_not_nested(
    a: Seq<char>,
    b: Seq<char>,
    root: Seq<char>,
    t: Seq<char>,
)
    requires
        placed(a, root, t),
        placed(b, root, t),
        contains(b, t),
    ensures
        !nested_under(a, b),
{
    let (da, na) = choose|d: Seq<char>, n: Seq<char>|
        #[trigger] child_path(d, n) == a && open_dir(d, root, t) && valid_name(n);
    let (db, nb) = choose|d: Seq<char>, n: Seq<char>|
        #[trigger] child_path(d, n) == b && open_dir(d, root, t) && valid_name(n);
    if nested_under(a, b) {
        let p = b.len() as int;
        if p > da.len() {
            assert(a[p] == na[p - da.len() - 1]);
        }
        assert(p <= da.len());
        assert(a.subrange(0, da.len() as int) =~= da);
        if p == da.len() {
            assert(b =~= da);
        } else {
            assert(da.subrange(0, p) =~= b);
            assert(da[p] == a[p]);
            lemma_contains_prefix(da, p, t);
        }
    }
}

impl Scanner {
    /// What a scan yields: every target found was reported as a directory,
    /// contains the target name, and lies inside no other target found.
    pub proof fn lemma_targets_sound(&self)
        requires
            self.wf(),
        ensures
            forall|i: int|
                0 <= i < self.found_view().len() ==> contains(
                    #[trigger] self.found_view()[i],
                    self.target_view(),
                ) && self.reported_dirs().contains(self.found_view()[i]),
            forall|i: int, j: int|
                0 <= i < self.found_view().len() && 0 <= j < self.found_view().len() ==> !nested_under(
                    #[trigger] self.found_view()[i],
                    #[trigger] self.found_view()[j],
                ),
    {
        assert forall|i: int, j: int|
            0 <= i < self.found_view().len() && 0 <= j < self.found_view().len() implies !nested_under(
            #[trigger] self.found_view()[i],
            #[trigger] self.found_view()[j],
        ) by {
            lemma_matches_not_nested(
                self.found_view()[i],
                self.found_view()[j],
                self.root_view(),
                self.target_view(),
            );
        }
    }
}

fn chars_of(s: &str) -> (v: Vec<char>)
    ensures
        v@ == s@,
{
    let n = s.unicode_len();
    let mut v: Vec<char> = Vec::new();
    let mut i: usize = 0;
    while i < n
        invariant
            n == s@.len(),
            i <= n,
            v@ == s@.subrange(0, i as int),
        decreases n - i,
    {
        v.push(s.get_char(i));
        i = i + 1;
        assert(v@ =~= s@.subrange(0, i as int));
    }
    assert(v@ =~= s@);
    v
}

/// Whether `t` is a substring of `s`.
pub fn string_contains(s: &String, t: &String) -> (r: bool)
    ensures
        r == contains(s@, t@),
{
    let a = chars_of(s.as_str());
    let b = chars_of(t.as_str());
    if b.len() > a.len() {
        assert forall|i: int| !occurs_at(s@, t@, i) by {}
        return false;
    }
    let mut i: usize = 0;
    while i <= a.len() - b.len()
        invariant
            a@ == s@,
            b@ == t@,
            b.len() <= a.len(),
            forall|k: int| 0 <= k < i ==> !#[trigger] occurs_at(s@, t@, k),
        decreases a.len() - b.len() + 1 - i,
    {
        let mut j: usize = 0;
        let mut same = true;
        while j < b.len()
            invariant
                a@ == s@,
                b@ == t@,
                i + b.len() <= a.len(),
                j <= b.len(),
                same == (forall|k: int| 0 <= k < j ==> a@[i + k] == b@[k]),
            decreases b.len() - j,
        {
            if a[i + j] != b[j] {
                same = false;
            }
            j = j + 1;
        }
        if same {
            assert(s@.subrange(i as int, i + t@.len()) =~= t@);
            assert(occurs_at(s@, t@, i as int));
            return true;
        }
        assert(!occurs_at(s@, t@, i as int)) by {
            if occurs_at(s@, t@, i as int) {
                assert forall|k: int| 0 <= k < b.len() implies a@[i + k] == b@[k] by {
                    assert(s@.subrange(i as int, i + t@.len())[k] == s@[i + k]);
                }
            }
        }
        i = i + 1;
    }
    assert forall|k: int| !occurs_at(s@, t@, k) by {
        if occurs_at(s@, t@, k) {
            assert(k < i);
        }
    }
    false
}

} // verus!
