//! Session state: the three entry lists, the active view, the mode flags,
//! and the operations an input event can trigger on them.
use vstd::prelude::*;
use crate::filter::{
    Matcher, apply, compile_matcher, escape_query, filtered_by, regex_compiles, regex_escaped,
};
use crate::sort::{
    Rankable, contains_entry, distinct_seq, is_ranking_of, is_unique_of,
    lemma_holds_view_contains, lemma_views_push, sort, unique,
};
use crate::views_of;

verus! {

/// Which of the three entry lists is shown.
#[derive(Clone, Copy, Debug, PartialEq, Eq, Structural)]
pub enum ViewMode {
    Sorted,
    Favorites,
    All,
}

/// The view that follows `v` in the cycle Sorted, Favorites, All, Sorted.
pub open spec fn spec_next_view(v: ViewMode) -> ViewMode {
    match v {
        ViewMode::Sorted => ViewMode::Favorites,
        ViewMode::Favorites => ViewMode::All,
        ViewMode::All => ViewMode::Sorted,
    }
}

/// Cycling through the views always takes exactly three steps to come back
/// to the starting view, whichever that is.
pub proof fn lemma_view_cycle(v: ViewMode)
    ensures
        spec_next_view(v) != v,
        spec_next_view(spec_next_view(v)) != v,
        spec_next_view(spec_next_view(spec_next_view(v))) == v,
{
}

/// One entry list per view.
pub struct Commands {
    pub sorted: Vec<String>,
    pub favorites: Vec<String>,
    pub all: Vec<String>,
}

impl Commands {
    /// The entry list a view selects, as a sequence of character contents.
    pub open spec fn list_for(&self, v: ViewMode) -> Seq<Seq<char>> {
        match v {
            ViewMode::Sorted => views_of(self.sorted@),
            ViewMode::Favorites => views_of(self.favorites@),
            ViewMode::All => views_of(self.all@),
        }
    }

    /// The favorites and the deduplicated history never hold an entry twice.
    pub open spec fn wf(&self) -> bool {
        &&& distinct_seq(views_of(self.favorites@))
        &&& distinct_seq(views_of(self.all@))
    }

    /// Lists with the same contents, entry by entry.
    pub open spec fn same_lists(&self, other: &Commands) -> bool {
        &&& views_of(self.sorted@) == views_of(other.sorted@)
        &&& views_of(self.favorites@) == views_of(other.favorites@)
        &&& views_of(self.all@) == views_of(other.all@)
    }
}

/// An element-wise copy of an entry list; `String::clone` returns its
/// argument exactly, so the copy equals the original.
fn duplicate_entries(v: &Vec<String>) -> (r: Vec<String>)
    ensures
        r@ == v@,
{
    let mut r: Vec<String> = Vec::new();
    let mut i: usize = 0;
    while i < v.len()
        invariant
            0 <= i <= v@.len(),
            r@ == v@.subrange(0, i as int),
        decreases v@.len() - i,
    {
        let e = v[i].clone();
        r.push(e);
        proof {
            assert(v@.subrange(0, i as int).push(v@[i as int]) =~= v@.subrange(0, i as int + 1));
        }
        i = i + 1;
    }
    proof {
        assert(v@.subrange(0, v@.len() as int) =~= v@);
    }
    r
}

/// The entries of `s` other than `cmd`, in their original order.
pub open spec fn without_entry(s: Seq<Seq<char>>, cmd: Seq<char>) -> Seq<Seq<char>> {
    s.filter(|x: Seq<char>| x != cmd)
}

/// Removing a one-longer prefix keeps the old result and appends the new
/// element exactly when it differs from `cmd`.
pub proof fn lemma_without_entry_step(s: Seq<Seq<char>>, cmd: Seq<char>, i: int)
    requires
        0 <= i < s.len(),
    ensures
        without_entry(s.subrange(0, i + 1), cmd) == if s[i] != cmd {
            without_entry(s.subrange(0, i), cmd).push(s[i])
        } else {
            without_entry(s.subrange(0, i), cmd)
        },
{
    let t = s.subrange(0, i + 1);
    assert(t.drop_last() =~= s.subrange(0, i));
    assert(t.last() == s[i]);
    reveal(Seq::filter);
}

/// What removing every copy of `cmd` does: the result never holds `cmd`,
/// holds everything else exactly as before, keeps distinctness, and on a
/// duplicate-free sequence removes exactly one copy; where `cmd` did not
/// occur, nothing changes.
pub proof fn lemma_without_entry_props(s: Seq<Seq<char>>, cmd: Seq<char>)
    ensures
        !without_entry(s, cmd).contains(cmd),
        forall|x: Seq<char>|
            x != cmd ==> (#[trigger] without_entry(s, cmd).contains(x) <==> s.contains(x)),
        distinct_seq(s) ==> distinct_seq(without_entry(s, cmd)),
        distinct_seq(s) && s.contains(cmd) ==> without_entry(s, cmd).to_multiset().insert(cmd)
            == s.to_multiset(),
        !s.contains(cmd) ==> without_entry(s, cmd) == s,
    decreases s.len(),
{
    broadcast use vstd::seq_lib::group_to_multiset_ensures;

    reveal(Seq::filter);
    let w = without_entry(s, cmd);
    if s.len() == 0 {
        assert(w =~= s);
        if s.contains(cmd) {
            let k = choose|k: int| 0 <= k < s.len() && s[k] == cmd;
        }
        if w.contains(cmd) {
            let k = choose|k: int| 0 <= k < w.len() && w[k] == cmd;
        }
    } else {
        let t = s.drop_last();
        let e = s.last();
        lemma_without_entry_props(t, cmd);
        let wt = without_entry(t, cmd);
        assert(w == if e != cmd {
            wt.push(e)
        } else {
            wt
        });
        // the result never holds cmd
        if w.contains(cmd) {
            let k = choose|k: int| 0 <= k < w.len() && w[k] == cmd;
            if e != cmd {
                if k < wt.len() {
                    assert(wt[k] == cmd);
                    assert(wt.contains(cmd));
                } else {
                    assert(w[k] == e);
                }
            } else {
                assert(wt.contains(cmd));
            }
            assert(false);
        }
        // membership of everything else is unchanged
        assert forall|x: Seq<char>| x != cmd implies (#[trigger] w.contains(x) <==> s.contains(
            x,
        )) by {
            if w.contains(x) {
                let k = choose|k: int| 0 <= k < w.len() && w[k] == x;
                if e != cmd && k == wt.len() {
                    assert(s[s.len() - 1] == x);
                } else {
                    assert(wt[k] == x);
                    assert(wt.contains(x));
                    assert(t.contains(x));
                    let j = choose|j: int| 0 <= j < t.len() && t[j] == x;
                    assert(s[j] == x);
                }
                assert(s.contains(x));
            }
            if s.contains(x) {
                let k = choose|k: int| 0 <= k < s.len() && s[k] == x;
                if k == s.len() - 1 {
                    assert(e == x);
                    assert(w[wt.len() as int] == x);
                } else {
                    assert(t[k] == x);
                    assert(t.contains(x));
                    assert(wt.contains(x));
                    let j = choose|j: int| 0 <= j < wt.len() && wt[j] == x;
                    assert(w[j] == x);
                }
                assert(w.contains(x));
            }
        }
        if distinct_seq(s) {
            assert forall|i: int, j: int| 0 <= i < j < t.len() implies t[i] != t[j] by {
                assert(t[i] == s[i]);
                assert(t[j] == s[j]);
            }
            assert(distinct_seq(wt));
            if e != cmd {
                // the last element is new to the filtered front
                assert forall|i: int, j: int| 0 <= i < j < w.len() implies w[i] != w[j] by {
                    if j < wt.len() {
                        assert(w[i] == wt[i]);
                        assert(w[j] == wt[j]);
                    } else {
                        assert(w[j] == e);
                        assert(w[i] == wt[i]);
                        if wt[i] == e {
                            assert(wt.contains(e));
                            assert(t.contains(e));
                            let k = choose|k: int| 0 <= k < t.len() && t[k] == e;
                            assert(s[k] == s[s.len() - 1]);
                            assert(false);
                        }
                    }
                }
            }
            if s.contains(cmd) {
                if e == cmd {
                    if t.contains(cmd) {
                        let k = choose|k: int| 0 <= k < t.len() && t[k] == cmd;
                        assert(s[k] == cmd);
                        assert(s[s.len() - 1] == cmd);
                        assert(false);
                    }
                    assert(w == wt);
                    assert(wt == t);
                    assert(s =~= t.push(cmd));
                    assert(t.push(cmd).to_multiset() == t.to_multiset().insert(cmd));
                } else {
                    assert(t.contains(cmd)) by {
                        let k = choose|k: int| 0 <= k < s.len() && s[k] == cmd;
                        assert(k < s.len() - 1);
                        assert(t[k] == cmd);
                    }
                    assert(w == wt.push(e));
                    assert(w.to_multiset() == wt.to_multiset().insert(e));
                    assert(wt.to_multiset().insert(e).insert(cmd) =~= wt.to_multiset().insert(
                        cmd,
                    ).insert(e));
                    assert(wt.to_multiset().insert(cmd) == t.to_multiset());
                    assert(s =~= t.push(e));
                    assert(s.to_multiset() == t.to_multiset().insert(e));
                }
            }
        }
        if !s.contains(cmd) {
            assert(e != cmd) by {
                if e == cmd {
                    assert(s[s.len() - 1] == cmd);
                }
            }
            if t.contains(cmd) {
                let k = choose|k: int| 0 <= k < t.len() && t[k] == cmd;
                assert(s[k] == cmd);
            }
            assert(wt == t);
            assert(w == t.push(e));
            assert(t.push(e) =~= s);
        }
    }
}

/// What toggling `cmd` as a favorite does to the favorites list: a
/// favorite loses every copy, anything else is appended at the end.
pub open spec fn spec_toggle_fav(favs: Seq<Seq<char>>, cmd: Seq<char>) -> Seq<Seq<char>> {
    if favs.contains(cmd) {
        without_entry(favs, cmd)
    } else {
        favs.push(cmd)
    }
}

/// Toggling the same entry twice returns the favorites to their original
/// membership and multiset of entries; when the entry was not a favorite
/// before, the list itself comes back exactly.
pub proof fn lemma_toggle_favorite_twice(favs: Seq<Seq<char>>, cmd: Seq<char>)
    requires
        distinct_seq(favs),
    ensures
        spec_toggle_fav(spec_toggle_fav(favs, cmd), cmd).to_multiset() == favs.to_multiset(),
        forall|x: Seq<char>|
            #[trigger] spec_toggle_fav(spec_toggle_fav(favs, cmd), cmd).contains(x)
                <==> favs.contains(x),
        !favs.contains(cmd) ==> spec_toggle_fav(spec_toggle_fav(favs, cmd), cmd) == favs,
{
    broadcast use vstd::seq_lib::group_to_multiset_ensures;

    if favs.contains(cmd) {
        let t1 = without_entry(favs, cmd);
        lemma_without_entry_props(favs, cmd);
        assert(!t1.contains(cmd));
        let t2 = t1.push(cmd);
        assert(spec_toggle_fav(favs, cmd) == t1);
        assert(spec_toggle_fav(t1, cmd) == t2);
        assert(t2.to_multiset() == t1.to_multiset().insert(cmd));
        assert(t2.to_multiset() == favs.to_multiset());
        assert forall|x: Seq<char>| #[trigger] t2.contains(x) <==> favs.contains(x) by {
            assert(t2.contains(x) <==> t2.to_multiset().count(x) > 0);
            assert(favs.contains(x) <==> favs.to_multiset().count(x) > 0);
        }
    } else {
        let t1 = favs.push(cmd);
        assert(t1[t1.len() - 1] == cmd);
        assert(t1.contains(cmd));
        let t2 = without_entry(t1, cmd);
        assert(spec_toggle_fav(favs, cmd) == t1);
        assert(spec_toggle_fav(t1, cmd) == t2);
        reveal(Seq::filter);
        assert(t1.drop_last() =~= favs);
        assert(t1.last() == cmd);
        assert(t2 == without_entry(favs, cmd));
        lemma_without_entry_props(favs, cmd);
        assert(t2 == favs);
    }
}

/// Copy `entries` while dropping every copy of `cmd`.
fn remove_all(entries: &Vec<String>, cmd: &String) -> (r: Vec<String>)
    ensures
        views_of(r@) == without_entry(views_of(entries@), cmd@),
{
    let ghost v = views_of(entries@);
    let mut r: Vec<String> = Vec::new();
    let mut i: usize = 0;
    proof {
        assert(v.subrange(0, 0) =~= Seq::<Seq<char>>::empty());
        reveal(Seq::filter);
        assert(views_of(r@) =~= without_entry(v.subrange(0, 0), cmd@));
    }
    while i < entries.len()
        invariant
            0 <= i <= entries@.len(),
            v == views_of(entries@),
            views_of(r@) == without_entry(v.subrange(0, i as int), cmd@),
        decreases entries@.len() - i,
    {
        let ghost old_r = r@;
        proof {
            lemma_without_entry_step(v, cmd@, i as int);
            assert(v[i as int] == entries@[i as int]@);
        }
        if !entries[i].same_as(cmd) {
            let e = entries[i].clone();
            r.push(e);
            proof {
                assert(views_of(r@) =~= views_of(old_r).push(entries@[i as int]@));
            }
        }
        i = i + 1;
    }
    proof {
        assert(v.subrange(0, entries@.len() as int) =~= v);
    }
    r
}

/// The whole session: the live lists, the snapshot they are restored from,
/// the active view, the mode flags, and the current query.
pub struct Application {
    pub to_restore: Option<Commands>,
    pub commands: Option<Commands>,
    pub view: ViewMode,
    pub regex_mode: bool,
    pub case_sensitivity: bool,
    pub search_string: String,
    pub shell: String,
}

impl Application {
    /// The loaded lists never hold duplicate favorites or duplicate
    /// deduplicated-history entries.
    pub open spec fn wf(&self) -> bool {
        &&& match self.commands {
            Some(c) => c.wf(),
            None => true,
        }
        &&& match self.to_restore {
            Some(c) => c.wf(),
            None => true,
        }
    }

    /// The pattern the query compiles to: the query itself in regex mode,
    /// the escaped query in literal mode.
    pub open spec fn search_pattern(&self) -> Seq<char> {
        if self.regex_mode {
            self.search_string@
        } else {
            regex_escaped(self.search_string@)
        }
    }

    /// The entry list of the active view, by character contents.
    pub open spec fn active_list(&self) -> Seq<Seq<char>>
        recommends
            self.commands is Some,
    {
        self.commands.unwrap().list_for(self.view)
    }

    /// Everything but the live entry lists is unchanged.
    pub open spec fn same_settings(&self, other: &Application) -> bool {
        &&& self.view == other.view
        &&& self.regex_mode == other.regex_mode
        &&& self.case_sensitivity == other.case_sensitivity
        &&& self.search_string@ == other.search_string@
        &&& self.shell@ == other.shell@
        &&& match (self.to_restore, other.to_restore) {
            (Option::<Commands>::None, Option::<Commands>::None) => true,
            (Some(a), Some(b)) => a.same_lists(&b),
            _ => false,
        }
    }

    /// A fresh session: nothing loaded, ranked view, literal
    /// case-insensitive matching, empty query.
    pub fn new(shell: &str) -> (r: Self)
        ensures
            r.to_restore is None,
            r.commands is None,
            r.view == ViewMode::Sorted,
            !r.regex_mode,
            !r.case_sensitivity,
            r.search_string@ == Seq::<char>::empty(),
            r.shell@ == shell@,
            r.wf(),
    {
        Self {
            to_restore: None,
            commands: None,
            view: ViewMode::Sorted,
            regex_mode: false,
            case_sensitivity: false,
            search_string: String::new(),
            shell: shell.to_string(),
        }
    }

    /// The entry list of the active view.
    pub fn get_commands(&self) -> (r: &Vec<String>)
        requires
            self.commands is Some,
        ensures
            views_of(r@) == self.active_list(),
    {
        let c = self.commands.as_ref().unwrap();
        match self.view {
            ViewMode::Sorted => &c.sorted,
            ViewMode::Favorites => &c.favorites,
            ViewMode::All => &c.all,
        }
    }

    /// Overwrite the live lists with the snapshot taken at load time; used
    /// before re-applying a query that just got shorter.
    pub fn restore(&mut self)
        ensures
            match old(self).to_restore {
                Option::<Commands>::None => final(self).commands is None,
                Some(c) => final(self).commands matches Some(d) && d.same_lists(&c),
            },
            final(self).same_settings(&old(self)),
            old(self).wf() ==> final(self).wf(),
    {
        match &self.to_restore {
            None => {
                self.commands = None;
            },
            Some(c) => {
                let d = Commands {
                    sorted: duplicate_entries(&c.sorted),
                    favorites: duplicate_entries(&c.favorites),
                    all: duplicate_entries(&c.all),
                };
                self.commands = Some(d);
            },
        }
    }

    /// Fill the three lists from the raw history and the stored favorites:
    /// the raw history deduplicated in first-seen order, the frecency
    /// ranking of the raw history, and the favorites as given. The same
    /// lists are snapshotted for later restoration.
    pub fn load_commands(&mut self, history: Vec<String>, favorites: Vec<String>)
        requires
            distinct_seq(views_of(favorites@)),
        ensures
            final(self).commands matches Some(c) && {
                &&& is_unique_of(views_of(history@), views_of(c.all@))
                &&& is_ranking_of(views_of(history@), views_of(c.sorted@))
                &&& views_of(c.favorites@) == views_of(favorites@)
            },
            match (final(self).to_restore, final(self).commands) {
                (Some(s), Some(c)) => s.same_lists(&c),
                _ => false,
            },
            final(self).view == old(self).view,
            final(self).regex_mode == old(self).regex_mode,
            final(self).case_sensitivity == old(self).case_sensitivity,
            final(self).search_string == old(self).search_string,
            final(self).shell == old(self).shell,
            final(self).wf(),
    {
        let all = unique(&history);
        let favs = favorites;
        let sorted = sort(history);
        let snapshot = Commands {
            sorted: duplicate_entries(&sorted),
            favorites: duplicate_entries(&favs),
            all: duplicate_entries(&all),
        };
        let live = Commands { sorted, favorites: favs, all };
        proof {
            assert(distinct_seq(views_of(live.all@)));
        }
        self.to_restore = Some(snapshot);
        self.commands = Some(live);
    }

    /// Compile the current query into a matcher. In literal mode the query
    /// is escaped first, so compilation always succeeds; in regex mode an
    /// invalid pattern yields no matcher.
    pub fn create_search_regex(&self) -> (r: Option<Matcher>)
        ensures
            r is Some <==> regex_compiles(self.search_pattern(), !self.case_sensitivity),
            !self.regex_mode ==> r is Some,
            r matches Some(m) ==> m.pattern() == self.search_pattern() && m.ignores_case()
                == !self.case_sensitivity,
    {
        let pattern = if self.regex_mode {
            self.search_string.clone()
        } else {
            escape_query(self.search_string.as_str())
        };
        compile_matcher(pattern, !self.case_sensitivity)
    }

    /// Replace the active view's list, leaving the other two as they are.
    fn set_active(&mut self, list: Vec<String>)
        requires
            old(self).commands is Some,
        ensures
            final(self).commands matches Some(c1) && {
                let c0 = old(self).commands.unwrap();
                match old(self).view {
                    ViewMode::Sorted => c1.sorted == list && c1.favorites == c0.favorites
                        && c1.all == c0.all,
                    ViewMode::Favorites => c1.favorites == list && c1.sorted == c0.sorted
                        && c1.all == c0.all,
                    ViewMode::All => c1.all == list && c1.sorted == c0.sorted && c1.favorites
                        == c0.favorites,
                }
            },
            final(self).view == old(self).view,
            final(self).regex_mode == old(self).regex_mode,
            final(self).case_sensitivity == old(self).case_sensitivity,
            final(self).search_string == old(self).search_string,
            final(self).shell == old(self).shell,
            final(self).to_restore == old(self).to_restore,
    {
        let mut c = self.commands.take().unwrap();
        match self.view {
            ViewMode::Sorted => {
                c.sorted = list;
            },
            ViewMode::Favorites => {
                c.favorites = list;
            },
            ViewMode::All => {
                c.all = list;
            },
        }
        self.commands = Some(c);
    }

    /// Filter the active view's list down to the entries the current query
    /// matches. A query that does not compile (only possible in regex mode)
    /// changes nothing: filtering is simply skipped for that keystroke.
    pub fn search(&mut self)
        requires
            old(self).commands is Some,
        ensures
            final(self).commands is Some,
            final(self).same_settings(&old(self)),
            final(self).to_restore == old(self).to_restore,
            regex_compiles(old(self).search_pattern(), !old(self).case_sensitivity) ==> {
                let c0 = old(self).commands.unwrap();
                let c1 = final(self).commands.unwrap();
                &&& final(self).active_list() == filtered_by(
                    old(self).active_list(),
                    old(self).search_pattern(),
                    !old(self).case_sensitivity,
                )
                &&& match old(self).view {
                    ViewMode::Sorted => c1.favorites == c0.favorites && c1.all == c0.all,
                    ViewMode::Favorites => c1.sorted == c0.sorted && c1.all == c0.all,
                    ViewMode::All => c1.sorted == c0.sorted && c1.favorites == c0.favorites,
                }
            },
            !regex_compiles(old(self).search_pattern(), !old(self).case_sensitivity)
                ==> *final(self) == *old(self),
            old(self).wf() ==> final(self).wf(),
    {
        let m = match self.create_search_regex() {
            Some(m) => m,
            None => {
                return ;
            },
        };
        let filtered = apply(&m, self.get_commands());
        proof {
            crate::filter::lemma_filtered_by_distinct(
                self.active_list(),
                m.pattern(),
                m.ignores_case(),
            );
        }
        self.set_active(filtered);
    }

    /// Toggle `command` as a favorite: drop every copy if it is one,
    /// append it if it is not. The other lists stay as they are.
    pub fn add_or_rm_fav(&mut self, command: String)
        requires
            old(self).commands is Some,
        ensures
            final(self).commands matches Some(c1) && {
                let c0 = old(self).commands.unwrap();
                &&& views_of(c1.favorites@) == spec_toggle_fav(
                    views_of(c0.favorites@),
                    command@,
                )
                &&& c1.sorted == c0.sorted
                &&& c1.all == c0.all
            },
            final(self).same_settings(&old(self)),
            final(self).to_restore == old(self).to_restore,
            old(self).wf() ==> final(self).wf(),
    {
        let mut c = self.commands.take().unwrap();
        let ghost favs0 = views_of(c.favorites@);
        proof {
            lemma_holds_view_contains(c.favorites@, command@);
        }
        if !contains_entry(&c.favorites, &command) {
            let ghost old_favs = c.favorites@;
            c.favorites.push(command);
            proof {
                lemma_views_push(old_favs, c.favorites@.last());
                assert(views_of(c.favorites@) == favs0.push(
                    c.favorites@.last()@,
                ));
                // an absent entry keeps the list duplicate-free
                assert forall|i: int, j: int|
                    0 <= i < j < views_of(c.favorites@).len() && distinct_seq(favs0) implies
                    views_of(c.favorites@)[i] != views_of(c.favorites@)[j] by {
                    if j == favs0.len() {
                        if favs0[i] == favs0.push(c.favorites@.last()@)[j] {
                            assert(favs0.contains(favs0[i]));
                        }
                    }
                }
            }
        } else {
            let nf = remove_all(&c.favorites, &command);
            c.favorites = nf;
            proof {
                lemma_without_entry_props(favs0, command@);
            }
        }
        self.commands = Some(c);
    }

    /// Remove every occurrence of exactly `command` from all three lists;
    /// an entry that merely contains `command` as a substring stays.
    pub fn delete_from_history(&mut self, command: String)
        requires
            old(self).commands is Some,
        ensures
            final(self).commands matches Some(c1) && {
                let c0 = old(self).commands.unwrap();
                &&& views_of(c1.sorted@) == without_entry(views_of(c0.sorted@), command@)
                &&& views_of(c1.favorites@) == without_entry(
                    views_of(c0.favorites@),
                    command@,
                )
                &&& views_of(c1.all@) == without_entry(views_of(c0.all@), command@)
            },
            final(self).same_settings(&old(self)),
            final(self).to_restore == old(self).to_restore,
            old(self).wf() ==> final(self).wf(),
    {
        let mut c = self.commands.take().unwrap();
        let ns = remove_all(&c.sorted, &command);
        let nf = remove_all(&c.favorites, &command);
        let na = remove_all(&c.all, &command);
        proof {
            lemma_without_entry_props(views_of(c.favorites@), command@);
            lemma_without_entry_props(views_of(c.all@), command@);
        }
        c.sorted = ns;
        c.favorites = nf;
        c.all = na;
        self.commands = Some(c);
    }

    /// Flip case sensitivity; nothing else moves.
    pub fn toggle_case(&mut self)
        ensures
            final(self).case_sensitivity == !old(self).case_sensitivity,
            final(self).regex_mode == old(self).regex_mode,
            final(self).view == old(self).view,
            final(self).search_string == old(self).search_string,
            final(self).shell == old(self).shell,
            final(self).commands == old(self).commands,
            final(self).to_restore == old(self).to_restore,
    {
        self.case_sensitivity = !self.case_sensitivity;
    }

    /// Flip regex mode; nothing else moves.
    pub fn toggle_regex_mode(&mut self)
        ensures
            final(self).regex_mode == !old(self).regex_mode,
            final(self).case_sensitivity == old(self).case_sensitivity,
            final(self).view == old(self).view,
            final(self).search_string == old(self).search_string,
            final(self).shell == old(self).shell,
            final(self).commands == old(self).commands,
            final(self).to_restore == old(self).to_restore,
    {
        self.regex_mode = !self.regex_mode;
    }

    /// Step to the next view in the fixed cycle; nothing else moves.
    pub fn toggle_view(&mut self)
        ensures
            final(self).view == spec_next_view(old(self).view),
            final(self).regex_mode == old(self).regex_mode,
            final(self).case_sensitivity == old(self).case_sensitivity,
            final(self).search_string == old(self).search_string,
            final(self).shell == old(self).shell,
            final(self).commands == old(self).commands,
            final(self).to_restore == old(self).to_restore,
    {
        self.view = match self.view {
            ViewMode::Sorted => ViewMode::Favorites,
            ViewMode::Favorites => ViewMode::All,
            ViewMode::All => ViewMode::Sorted,
        };
    }
}

} // verus!
