//! The paging cursor: a 1-based page number and a 0-based selection index
//! into the current page, with wraparound in both directions.
use vstd::prelude::*;
use crate::app::ViewMode;
use crate::views_of;

verus! {

/// Euclidean remainder: for `b >= 1` the result always lies in `[0, b)`.
pub open spec fn emod(a: int, b: int) -> int
    recommends
        b >= 1,
{
    a % b
}

/// Number of pages `n` entries fill at `cap` entries per page: the
/// ceiling of `n / cap`, so zero exactly when there are no entries.
pub open spec fn spec_page_count(n: int, cap: int) -> int
    recommends
        cap >= 1,
        n >= 0,
{
    (n + cap - 1) / cap
}

/// Where a page turn in `dir` lands from `page`: one step around the
/// cycle of `total` pages, or page 1 when there are no pages at all.
pub open spec fn spec_turn(page: int, dir: int, total: int) -> int {
    if total == 0 {
        1
    } else {
        emod(page - 1 + dir, total) + 1
    }
}

/// The slice of `v` that page `page` shows at `cap` entries per page:
/// empty when the page is out of range.
pub open spec fn spec_page(v: Seq<Seq<char>>, cap: int, page: int) -> Seq<Seq<char>>
    recommends
        cap >= 1,
{
    let n = v.len() as int;
    if 1 <= page && (page - 1) * cap < n {
        v.subrange((page - 1) * cap, if page * cap < n { page * cap } else { n })
    } else {
        Seq::empty()
    }
}

/// A zero-based page index is a real page exactly when the entries before
/// it do not already exhaust the list.
proof fn lemma_page_count_bounds(n: int, cap: int, p0: int)
    requires
        cap >= 1,
        0 <= n,
        0 <= p0,
    ensures
        (p0 < spec_page_count(n, cap)) <==> (p0 * cap < n),
        spec_page_count(n, cap) <= n,
        spec_page_count(n, cap) >= 0,
        n > 0 ==> spec_page_count(n, cap) >= 1,
{
    let q = spec_page_count(n, cap);
    vstd::arithmetic::div_mod::lemma_fundamental_div_mod(n + cap - 1, cap);
    vstd::arithmetic::div_mod::lemma_mod_division_less_than_divisor(n + cap - 1, cap);
    let r = (n + cap - 1) % cap;
    assert(n + cap - 1 == cap * q + r);
    assert(0 <= r < cap);
    if p0 < q {
        assert(p0 * cap <= (q - 1) * cap) by (nonlinear_arith)
            requires
                p0 <= q - 1,
                cap >= 1,
        ;
        assert((q - 1) * cap == cap * q - cap) by (nonlinear_arith);
        assert(p0 * cap < n);
    }
    if p0 >= q {
        assert(p0 * cap >= q * cap) by (nonlinear_arith)
            requires
                p0 >= q,
                cap >= 1,
        ;
        assert(q * cap == cap * q) by (nonlinear_arith);
        assert(p0 * cap >= n);
    }
    if q > n {
        assert(cap * q >= cap * (n + 1)) by (nonlinear_arith)
            requires
                q >= n + 1,
                cap >= 1,
        ;
        assert(cap * (n + 1) >= n + 1 + cap - 1) by (nonlinear_arith)
            requires
                n >= 0,
                cap >= 1,
        ;
        assert(false);
    }
    assert(q >= 0) by {
        if q < 0 {
            assert(cap * q <= -cap) by (nonlinear_arith)
                requires
                    q <= -1,
                    cap >= 1,
            ;
        }
    }
    if n > 0 && q < 1 {
        assert(0 * cap < n);
        assert(false);
    }
}

/// A page never shows more rows than the viewport holds, and every page
/// up to the page count shows at least one.
proof fn lemma_spec_page_len(v: Seq<Seq<char>>, cap: int, page: int)
    requires
        cap >= 1,
        page >= 1,
    ensures
        spec_page(v, cap, page).len() <= cap,
        1 <= page <= spec_page_count(v.len() as int, cap) ==> spec_page(v, cap, page).len()
            >= 1,
{
    let n = v.len() as int;
    let s = (page - 1) * cap;
    assert(page * cap == s + cap) by (nonlinear_arith)
        requires
            s == (page - 1) * cap,
    ;
    assert(s >= 0) by (nonlinear_arith)
        requires
            s == (page - 1) * cap,
            page >= 1,
            cap >= 1,
    ;
    lemma_page_count_bounds(n, cap, page - 1);
    if 1 <= page && s < n {
        let e = if page * cap < n {
            page * cap
        } else {
            n
        };
        assert(spec_page(v, cap, page) == v.subrange(s, e));
        assert(e - s <= cap);
        assert(e - s >= 1);
    }
}

/// The on-screen cursor of a session: which page is shown and which row of
/// it is selected, for a viewport of `capacity` rows per page.
pub struct UserInterface {
    pub page: i32,
    pub selected: i32,
    pub capacity: usize,
}

impl UserInterface {
    /// Pages count from 1, the selection from 0 and inside the viewport,
    /// and the viewport holds at least one row.
    pub open spec fn wf(&self) -> bool {
        &&& self.page >= 1
        &&& self.selected >= 0
        &&& (self.selected as int) < self.capacity as int
        &&& 1 <= self.capacity as int
        &&& self.capacity as int <= i32::MAX as int
    }

    /// A cursor at the top of the first page of a viewport with `capacity`
    /// rows.
    pub fn new(capacity: usize) -> (r: Self)
        requires
            1 <= capacity <= i32::MAX as usize,
        ensures
            r.page == 1,
            r.selected == 0,
            r.capacity == capacity,
            r.wf(),
    {
        Self { page: 1, selected: 0, capacity }
    }

    /// Jump to page `v`.
    pub fn set_page(&mut self, v: i32)
        requires
            v >= 1,
        ensures
            final(self).page == v,
            final(self).selected == old(self).selected,
            final(self).capacity == old(self).capacity,
            old(self).wf() ==> final(self).wf(),
    {
        self.page = v;
    }

    /// Move the selection to row `v` of the current page.
    pub fn set_selected(&mut self, v: i32)
        requires
            0 <= v,
            (v as int) < old(self).capacity as int,
        ensures
            final(self).selected == v,
            final(self).page == old(self).page,
            final(self).capacity == old(self).capacity,
            old(self).wf() ==> final(self).wf(),
    {
        self.selected = v;
    }

    /// How many pages the entry list fills.
    pub fn total_pages(&self, commands: &Vec<String>) -> (r: i32)
        requires
            self.wf(),
            commands@.len() <= i32::MAX as usize,
        ensures
            r as int == spec_page_count(commands@.len() as int, self.capacity as int),
            r >= 0,
    {
        let n = commands.len();
        proof {
            lemma_page_count_bounds(n as int, self.capacity as int, 0);
        }
        let t = (n + self.capacity - 1) / self.capacity;
        t as i32
    }

    /// The entries of the current page: the chunk of the list the page
    /// number points at, or nothing when the page is out of range.
    pub fn get_page(&self, commands: &Vec<String>) -> (r: Vec<String>)
        requires
            self.wf(),
            commands@.len() <= i32::MAX as usize,
        ensures
            views_of(r@) == spec_page(
                views_of(commands@),
                self.capacity as int,
                self.page as int,
            ),
    {
        let ghost v = views_of(commands@);
        let n = commands.len();
        let total = self.total_pages(commands);
        let p0 = (self.page - 1) as usize;
        proof {
            lemma_page_count_bounds(n as int, self.capacity as int, p0 as int);
        }
        if self.page > total {
            proof {
                assert(!((p0 as int) * (self.capacity as int) < n as int));
                assert(views_of(Seq::<String>::empty()) =~= Seq::<Seq<char>>::empty());
            }
            return Vec::new();
        }
        let start = p0 * self.capacity;
        let end = if n - start < self.capacity {
            n
        } else {
            start + self.capacity
        };
        proof {
            assert((p0 as int) * (self.capacity as int) < n as int);
            assert(start as int == (self.page as int - 1) * self.capacity as int);
            assert(end as int == if (self.page as int) * (self.capacity as int) < n as int {
                (self.page as int) * (self.capacity as int)
            } else {
                n as int
            }) by {
                assert((self.page as int) * (self.capacity as int) == start as int
                    + self.capacity as int) by (nonlinear_arith)
                    requires
                        start as int == (self.page as int - 1) * (self.capacity as int),
                ;
            }
        }
        let mut r: Vec<String> = Vec::new();
        let mut i: usize = start;
        proof {
            assert(views_of(r@) =~= v.subrange(start as int, start as int));
        }
        while i < end
            invariant
                start <= i <= end,
                end <= n,
                n == commands@.len(),
                v == views_of(commands@),
                views_of(r@) == v.subrange(start as int, i as int),
            decreases end - i,
        {
            let ghost old_r = r@;
            let e = commands[i].clone();
            r.push(e);
            proof {
                assert(views_of(r@) =~= views_of(old_r).push(commands@[i as int]@));
                assert(v.subrange(start as int, i as int).push(v[i as int]) =~= v.subrange(
                    start as int,
                    i as int + 1,
                ));
            }
            i = i + 1;
        }
        r
    }

    /// How many entries the current page shows.
    pub fn get_page_size(&self, commands: &Vec<String>) -> (r: i32)
        requires
            self.wf(),
            commands@.len() <= i32::MAX as usize,
        ensures
            r as int == spec_page(
                views_of(commands@),
                self.capacity as int,
                self.page as int,
            ).len(),
            0 <= r as int <= self.capacity as int,
    {
        let page = self.get_page(commands);
        proof {
            assert(views_of(page@).len() == page@.len());
            lemma_spec_page_len(
                views_of(commands@),
                self.capacity as int,
                self.page as int,
            );
        }
        page.len() as i32
    }

    /// Turn one page forward or backward, wrapping around the total number
    /// of pages; with no entries at all the cursor stays on page 1.
    pub fn turn_page(&mut self, commands: &Vec<String>, direction: i32)
        requires
            old(self).wf(),
            direction == 1 || direction == -1,
            commands@.len() <= i32::MAX as usize,
        ensures
            final(self).page as int == spec_turn(
                old(self).page as int,
                direction as int,
                spec_page_count(commands@.len() as int, old(self).capacity as int),
            ),
            final(self).selected == old(self).selected,
            final(self).capacity == old(self).capacity,
            final(self).wf(),
    {
        let total = self.total_pages(commands);
        if total == 0 {
            self.page = 1;
        } else {
            let a = self.page - 1 + direction;
            let r = if a < 0 {
                proof {
                    vstd::arithmetic::div_mod::lemma_mod_add_multiples_vanish(
                        -1,
                        total as int,
                    );
                    vstd::arithmetic::div_mod::lemma_small_mod(
                        (total - 1) as nat,
                        total as nat,
                    );
                    assert(a == -1);
                    assert(emod(a as int, total as int) == total - 1);
                }
                total - 1
            } else {
                a % total
            };
            proof {
                if a >= 0 {
                    vstd::arithmetic::div_mod::lemma_mod_division_less_than_divisor(
                        a as int,
                        total as int,
                    );
                }
            }
            self.page = r + 1;
        }
    }

    /// Move the selection one row up or down, wrapping within the current
    /// page: wrapping forward turns to the next page and selects its top
    /// row, wrapping backward turns to the previous page and selects its
    /// bottom row. An empty page leaves the cursor alone.
    pub fn move_selected(&mut self, commands: &Vec<String>, direction: i32)
        requires
            old(self).wf(),
            direction == 1 || direction == -1,
            commands@.len() <= i32::MAX as usize,
        ensures
            final(self).capacity == old(self).capacity,
            final(self).wf(),
            ({
                let v = views_of(commands@);
                let cap = old(self).capacity as int;
                let total = spec_page_count(v.len() as int, cap);
                let psz = spec_page(v, cap, old(self).page as int).len() as int;
                if psz == 0 {
                    *final(self) == *old(self)
                } else {
                    let s1 = emod(old(self).selected as int + direction as int, psz);
                    if direction == 1 && s1 == 0 {
                        &&& final(self).page as int == spec_turn(old(self).page as int, 1, total)
                        &&& final(self).selected == 0
                    } else if direction == -1 && s1 == psz - 1 {
                        &&& final(self).page as int == spec_turn(
                            old(self).page as int,
                            -1,
                            total,
                        )
                        &&& final(self).selected as int == spec_page(
                            v,
                            cap,
                            spec_turn(old(self).page as int, -1, total),
                        ).len() - 1
                    } else {
                        &&& final(self).page == old(self).page
                        &&& final(self).selected as int == s1
                    }
                }
            }),
    {
        let ghost v = views_of(commands@);
        let page_size = self.get_page_size(commands);
        if page_size == 0 {
            return ;
        }
        let a = self.selected + direction;
        let s1 = if a < 0 {
            proof {
                vstd::arithmetic::div_mod::lemma_mod_add_multiples_vanish(
                    -1,
                    page_size as int,
                );
                vstd::arithmetic::div_mod::lemma_small_mod(
                    (page_size - 1) as nat,
                    page_size as nat,
                );
                assert(a == -1);
            }
            page_size - 1
        } else {
            proof {
                vstd::arithmetic::div_mod::lemma_mod_division_less_than_divisor(
                    a as int,
                    page_size as int,
                );
            }
            a % page_size
        };
        proof {
            assert(s1 as int == emod(old(self).selected as int + direction as int,
                page_size as int));
        }
        if direction == 1 && s1 == 0 {
            self.selected = 0;
            self.turn_page(commands, 1);
        } else if direction == -1 && s1 == page_size - 1 {
            self.turn_page(commands, -1);
            proof {
                let cap = self.capacity as int;
                let n = v.len() as int;
                let total = spec_page_count(n, cap);
                lemma_page_count_bounds(n, cap, old(self).page as int - 1);
                assert(total >= 1);
                vstd::arithmetic::div_mod::lemma_mod_division_less_than_divisor(
                    old(self).page as int - 1 + direction as int,
                    total,
                );
                lemma_page_count_bounds(n, cap, self.page as int - 1);
                lemma_spec_page_len(v, cap, self.page as int);
            }
            let nps = self.get_page_size(commands);
            proof {
                assert(nps >= 1);
            }
            self.selected = nps - 1;
        } else {
            self.selected = s1;
        }
    }

    /// The text of the selected entry; the current page must reach the
    /// selected row.
    pub fn get_selected(&self, commands: &Vec<String>) -> (r: String)
        requires
            self.wf(),
            commands@.len() <= i32::MAX as usize,
            (self.selected as int) < spec_page(
                views_of(commands@),
                self.capacity as int,
                self.page as int,
            ).len(),
        ensures
            r@ == spec_page(views_of(commands@), self.capacity as int, self.page as int)[
                self.selected as int],
    {
        let page = self.get_page(commands);
        proof {
            assert(views_of(page@).len() == page@.len());
            assert(views_of(page@)[self.selected as int] == page@[self.selected as int]@);
        }
        let r = page[self.selected as usize].clone();
        r
    }

    /// The status-bar label of a view.
    pub fn display_view(&self, value: ViewMode) -> (r: String)
        ensures
            value == ViewMode::Sorted ==> r@ == "sorted"@,
            value == ViewMode::Favorites ==> r@ == "favorites"@,
            value == ViewMode::All ==> r@ == "all"@,
    {
        match value {
            ViewMode::Sorted => "sorted".to_string(),
            ViewMode::Favorites => "favorites".to_string(),
            ViewMode::All => "all".to_string(),
        }
    }

    /// The status-bar label of the case-sensitivity flag.
    pub fn display_case(&self, value: bool) -> (r: String)
        ensures
            value ==> r@ == "sensitive"@,
            !value ==> r@ == "insensitive"@,
    {
        if value {
            "sensitive".to_string()
        } else {
            "insensitive".to_string()
        }
    }

    /// The status-bar label of the regex-mode flag.
    pub fn display_regex_mode(&self, value: bool) -> (r: String)
        ensures
            value ==> r@ == "on"@,
            !value ==> r@ == "off"@,
    {
        if value {
            "on".to_string()
        } else {
            "off".to_string()
        }
    }
}

} // verus!

