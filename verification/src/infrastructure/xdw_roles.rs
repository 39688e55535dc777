//! Settles what each entry of the page table is. Thumbnails divide the table
//! into groups; a group holds a sheet and what belongs to it.
use crate::domain::page::{page_models, Page, PageData, PageModel, Role};
use vstd::prelude::*;

verus! {

impl PageModel {
    /// The same entry in another role.
    pub open spec fn with_role(self, role: Role, owner: Option<usize>) -> PageModel {
        PageModel { role, belongs_to: owner, ..self }
    }

    /// An image without a structure of its own, which can be a picture on a
    /// sheet.
    pub open spec fn is_artwork(self) -> bool {
        self.data is Jpeg || self.data is Bare
    }

    /// Coded data that says nothing about its shape.
    pub open spec fn is_opaque(self) -> bool {
        self.data is Bare && self.paper is None && self.pixels is None
    }

    /// An image that states its paper is a page of its own.
    pub open spec fn is_image_page(self) -> bool {
        self.data is Jpeg && self.paper is Some
    }

    /// How many pixels the entry records.
    pub open spec fn pixel_count(self) -> int {
        match self.pixels {
            Some((w, h)) => w * h,
            None => 0,
        }
    }
}

// --------------------------------------------------------------- one group

/// The members of a group that are not data tables.
pub open spec fn open_members(pages: Seq<PageModel>, group: Seq<usize>) -> Seq<usize>
    decreases group.len(),
{
    if group.len() == 0 {
        Seq::empty()
    } else {
        let rest = open_members(pages, group.drop_last());
        if pages[group.last() as int].role != Role::Data {
            rest.push(group.last())
        } else {
            rest
        }
    }
}

/// The position of the first member from `k` on that satisfies `cond`, or the
/// length.
pub open spec fn first_member(
    pages: Seq<PageModel>,
    g: Seq<usize>,
    k: nat,
    cond: spec_fn(PageModel) -> bool,
) -> nat
    decreases g.len() - k,
{
    if k >= g.len() {
        g.len()
    } else if cond(pages[g[k as int] as int]) {
        k
    } else {
        first_member(pages, g, k + 1, cond)
    }
}

/// The position of the largest image among the first `n` members; the later of
/// two that are equally large.
pub open spec fn largest(pages: Seq<PageModel>, g: Seq<usize>, n: nat) -> nat
    decreases n,
{
    if n <= 1 {
        0
    } else {
        let best = largest(pages, g, (n - 1) as nat);
        if pages[g[n - 1] as int].pixel_count() >= pages[g[best as int] as int].pixel_count() {
            (n - 1) as nat
        } else {
            best
        }
    }
}

/// Whether the member at position `k` is a sheet.
///
/// Where images state their paper, those and the coded entries are the sheets.
/// Otherwise the coded entries are, and what stands before the first of them;
/// without a coded entry the largest image is.
pub open spec fn becomes_sheet(pages: Seq<PageModel>, g: Seq<usize>, k: int) -> bool {
    let p = pages[g[k] as int];
    let coded = first_member(pages, g, 0, |q: PageModel| !q.is_artwork());
    if first_member(pages, g, 0, |q: PageModel| q.is_image_page()) < g.len() {
        p.is_image_page() || !p.is_artwork()
    } else if coded < g.len() {
        !p.is_artwork() || k < coded
    } else {
        k == largest(pages, g, g.len())
    }
}

/// The entry number of the last sheet before position `k`.
pub open spec fn sheet_before(pages: Seq<PageModel>, g: Seq<usize>, k: int) -> Option<usize>
    decreases k,
{
    if k <= 0 {
        None
    } else if becomes_sheet(pages, g, k - 1) {
        Some(pages[g[k - 1] as int].index)
    } else {
        sheet_before(pages, g, k - 1)
    }
}

/// The entry number of the first sheet from position `k` on.
pub open spec fn sheet_from(pages: Seq<PageModel>, g: Seq<usize>, k: int) -> Option<usize>
    decreases g.len() - k,
{
    if k < 0 || k >= g.len() {
        None
    } else if becomes_sheet(pages, g, k) {
        Some(pages[g[k] as int].index)
    } else {
        sheet_from(pages, g, k + 1)
    }
}

/// The sheet that takes the pictures standing before every sheet: the first
/// image that states its paper, or else the first sheet.
pub open spec fn default_owner(pages: Seq<PageModel>, g: Seq<usize>) -> Option<usize> {
    let e = first_member(pages, g, 0, |q: PageModel| q.is_image_page());
    if e < g.len() {
        Some(pages[g[e as int] as int].index)
    } else {
        sheet_from(pages, g, 0)
    }
}

/// What the member at position `k` is.
pub open spec fn member(pages: Seq<PageModel>, g: Seq<usize>, k: int) -> PageModel {
    let p = pages[g[k] as int];
    if becomes_sheet(pages, g, k) {
        p.with_role(Role::Sheet, None)
    } else {
        p.with_role(
            Role::Picture,
            match sheet_before(pages, g, k) {
                Some(o) => Some(o),
                None => default_owner(pages, g),
            },
        )
    }
}

/// The pages once the first `n` members are settled.
pub open spec fn settled(pages: Seq<PageModel>, g: Seq<usize>, n: int) -> Seq<PageModel>
    decreases n,
{
    if n <= 0 {
        pages
    } else {
        settled(pages, g, n - 1).update(g[n - 1] as int, member(pages, g, n - 1))
    }
}

/// The pages once the first `n` members are data.
pub open spec fn set_aside(pages: Seq<PageModel>, g: Seq<usize>, n: int) -> Seq<PageModel>
    decreases n,
{
    if n <= 0 {
        pages
    } else {
        set_aside(pages, g, n - 1).update(
            g[n - 1] as int,
            pages[g[n - 1] as int].with_role(Role::Data, None),
        )
    }
}

/// Every member is coded data without a shape.
pub open spec fn all_opaque(pages: Seq<PageModel>, g: Seq<usize>) -> bool {
    forall|k: int| 0 <= k < g.len() ==> #[trigger] pages[g[k] as int].is_opaque()
}

/// The pages once a group is settled. Data without a shape behind the last
/// thumbnail is no page.
#[verifier::opaque]
pub open spec fn closed(pages: Seq<PageModel>, group: Seq<usize>, after_thumbnail: bool) -> Seq<
    PageModel,
> {
    let g = open_members(pages, group);
    if after_thumbnail && all_opaque(pages, g) {
        set_aside(pages, g, g.len() as int)
    } else {
        settled(pages, g, g.len() as int)
    }
}

// --------------------------------------------------------------- the table

/// Where the assignment stands: the pages, the group that is open, and whether
/// the last entry that settled anything was a thumbnail.
pub struct Assigning {
    pub pages: Seq<PageModel>,
    pub group: Seq<usize>,
    pub after_thumbnail: bool,
}

/// The entry number of the last sheet in the group.
pub open spec fn last_sheet(pages: Seq<PageModel>, group: Seq<usize>) -> Option<usize>
    decreases group.len(),
{
    if group.len() == 0 {
        None
    } else if pages[group.last() as int].role == Role::Sheet {
        Some(pages[group.last() as int].index)
    } else {
        last_sheet(pages, group.drop_last())
    }
}

/// The assignment after the entry at `i`.
pub open spec fn assign_one(s: Assigning, i: int) -> Assigning {
    let p = s.pages[i];
    let shut = closed(s.pages, s.group, false);
    if p.data is Fields {
        Assigning {
            pages: s.pages.update(i, p.with_role(Role::Data, None)),
            group: s.group,
            after_thumbnail: false,
        }
    } else if p.full_size_preview() {
        Assigning {
            pages: shut.update(i, p.with_role(Role::Sheet, None)),
            group: seq![i as usize],
            after_thumbnail: false,
        }
    } else if p.data is Preview {
        match last_sheet(shut, s.group) {
            Some(owner) => Assigning {
                pages: shut.update(i, p.with_role(Role::Thumbnail, Some(owner))),
                group: Seq::empty(),
                after_thumbnail: true,
            },
            None => Assigning {
                pages: shut.update(i, p.with_role(Role::Sheet, None)),
                group: Seq::empty(),
                after_thumbnail: false,
            },
        }
    } else {
        Assigning { group: s.group.push(i as usize), ..s }
    }
}

/// The assignment after the first `n` entries.
pub open spec fn assigned_below(pages: Seq<PageModel>, n: int) -> Assigning
    decreases n,
{
    if n <= 0 {
        Assigning { pages, group: Seq::empty(), after_thumbnail: false }
    } else {
        assign_one(assigned_below(pages, n - 1), n - 1)
    }
}

/// The page table with every role settled.
pub open spec fn assigned(pages: Seq<PageModel>) -> Seq<PageModel> {
    let s = assigned_below(pages, pages.len() as int);
    closed(s.pages, s.group, s.after_thumbnail)
}

// --------------------------------------------------------------- lemmas

/// Nothing but role and owner differs.
pub open spec fn same_but_roles(a: Seq<PageModel>, b: Seq<PageModel>) -> bool {
    &&& a.len() == b.len()
    &&& forall|i: int|
        0 <= i < a.len() ==> #[trigger] a[i] == b[i].with_role(a[i].role, a[i].belongs_to)
}

/// The positions lie in a table of `n` entries, in ascending order.
pub open spec fn ascending(g: Seq<usize>, n: int) -> bool {
    &&& forall|k: int| 0 <= k < g.len() ==> #[trigger] g[k] < n
    &&& forall|j: int, k: int| 0 <= j < k < g.len() ==> g[j] < g[k]
}

proof fn lemma_open_members(pages: Seq<PageModel>, group: Seq<usize>)
    requires
        ascending(group, pages.len() as int),
    ensures
        ascending(open_members(pages, group), pages.len() as int),
        open_members(pages, group).len() <= group.len(),
        forall|k: int|
            0 <= k < open_members(pages, group).len() ==> group.contains(
                #[trigger] open_members(pages, group)[k],
            ),
        forall|k: int|
            0 <= k < group.len() && pages[group[k] as int].role != Role::Data ==> open_members(
                pages,
                group,
            ).contains(#[trigger] group[k]),
    decreases group.len(),
{
    if group.len() > 0 {
        let rest = group.drop_last();
        lemma_open_members(pages, rest);
        let g = open_members(pages, group);
        let h = open_members(pages, rest);
        assert forall|k: int| 0 <= k < g.len() implies group.contains(#[trigger] g[k]) by {
            if k < h.len() {
                assert(rest.contains(h[k]));
                let j = choose|j: int| 0 <= j < rest.len() && rest[j] == h[k];
                assert(group[j] == g[k]);
            } else {
                assert(group[group.len() - 1] == g[k]);
            }
        }
        assert forall|j: int, k: int| 0 <= j < k < g.len() implies g[j] < g[k] by {
            if k >= h.len() {
                assert(rest.contains(h[j]));
                let m = choose|m: int| 0 <= m < rest.len() && rest[m] == h[j];
                assert(group[m] < group[group.len() - 1]);
            }
        }
        assert forall|k: int|
            0 <= k < group.len() && pages[group[k] as int].role != Role::Data implies g.contains(
            #[trigger] group[k],
        ) by {
            if k < rest.len() {
                assert(rest[k] == group[k]);
                assert(h.contains(rest[k]));
                let m = choose|m: int| 0 <= m < h.len() && h[m] == rest[k];
                assert(g[m] == group[k]);
            } else {
                assert(g[g.len() - 1] == group[k]);
            }
        }
    }
}

proof fn lemma_settled(pages: Seq<PageModel>, g: Seq<usize>, n: int)
    requires
        ascending(g, pages.len() as int),
        0 <= n <= g.len(),
    ensures
        same_but_roles(settled(pages, g, n), pages),
        forall|k: int|
            0 <= k < n ==> settled(pages, g, n)[#[trigger] g[k] as int] == member(pages, g, k),
        forall|i: int|
            0 <= i < pages.len() && !g.contains(i as usize) ==> #[trigger] settled(
                pages,
                g,
                n,
            )[i] == pages[i],
    decreases n,
{
    if n > 0 {
        lemma_settled(pages, g, n - 1);
        let before = settled(pages, g, n - 1);
        let after = settled(pages, g, n);
        assert(g.contains(g[n - 1]));
        assert forall|k: int| 0 <= k < n implies after[#[trigger] g[k] as int] == member(
            pages,
            g,
            k,
        ) by {
            if k < n - 1 {
                assert(g[k] < g[n - 1]);
            }
        }
        assert forall|i: int| 0 <= i < after.len() implies #[trigger] after[i]
            == pages[i].with_role(after[i].role, after[i].belongs_to) by {
            if i != g[n - 1] {
                assert(after[i] == before[i]);
            }
        }
    }
}

proof fn lemma_set_aside(pages: Seq<PageModel>, g: Seq<usize>, n: int)
    requires
        ascending(g, pages.len() as int),
        0 <= n <= g.len(),
    ensures
        same_but_roles(set_aside(pages, g, n), pages),
        forall|k: int|
            0 <= k < n ==> set_aside(pages, g, n)[#[trigger] g[k] as int]
                == pages[g[k] as int].with_role(Role::Data, None),
        forall|i: int|
            0 <= i < pages.len() && !g.contains(i as usize) ==> #[trigger] set_aside(
                pages,
                g,
                n,
            )[i] == pages[i],
    decreases n,
{
    if n > 0 {
        lemma_set_aside(pages, g, n - 1);
        let before = set_aside(pages, g, n - 1);
        let after = set_aside(pages, g, n);
        assert(g.contains(g[n - 1]));
        assert forall|k: int| 0 <= k < n implies after[#[trigger] g[k] as int]
            == pages[g[k] as int].with_role(Role::Data, None) by {
            if k < n - 1 {
                assert(g[k] < g[n - 1]);
            }
        }
        assert forall|i: int| 0 <= i < after.len() implies #[trigger] after[i]
            == pages[i].with_role(after[i].role, after[i].belongs_to) by {
            if i != g[n - 1] {
                assert(after[i] == before[i]);
            }
        }
    }
}

proof fn lemma_first_member(
    pages: Seq<PageModel>,
    g: Seq<usize>,
    k: nat,
    cond: spec_fn(PageModel) -> bool,
)
    ensures
        ({
            let f = first_member(pages, g, k, cond);
            &&& f <= g.len() || k > g.len()
            &&& f < g.len() ==> f >= k && cond(pages[g[f as int] as int])
        }),
    decreases g.len() - k,
{
    if k < g.len() && !cond(pages[g[k as int] as int]) {
        lemma_first_member(pages, g, k + 1, cond);
    }
}

proof fn lemma_largest(pages: Seq<PageModel>, g: Seq<usize>, n: nat)
    ensures
        n > 0 ==> largest(pages, g, n) < n,
    decreases n,
{
    if n > 1 {
        lemma_largest(pages, g, (n - 1) as nat);
    }
}

/// Some sheet has the entry number.
pub open spec fn has_sheet(pages: Seq<PageModel>, index: usize) -> bool {
    exists|k: int|
        0 <= k < pages.len() && #[trigger] pages[k].role == Role::Sheet && pages[k].index == index
}

/// An entry that is no sheet and no data belongs to a sheet.
pub open spec fn belongs(pages: Seq<PageModel>, p: PageModel) -> bool {
    (p.role == Role::Picture || p.role == Role::Thumbnail) ==> match p.belongs_to {
        Some(o) => has_sheet(pages, o),
        None => false,
    }
}

/// A closed group: entries outside it are as before, and no role but those of
/// the members changes.
proof fn lemma_closed_roles(pages: Seq<PageModel>, group: Seq<usize>, after_thumbnail: bool)
    requires
        ascending(group, pages.len() as int),
    ensures
        ({
            let s = closed(pages, group, after_thumbnail);
            &&& same_but_roles(s, pages)
            &&& forall|i: int|
                0 <= i < pages.len() && !group.contains(i as usize) ==> #[trigger] s[i] == pages[i]
        }),
{
    reveal(closed);
    let g = open_members(pages, group);
    let s = closed(pages, group, after_thumbnail);
    lemma_open_members(pages, group);
    lemma_settled(pages, g, g.len() as int);
    lemma_set_aside(pages, g, g.len() as int);
    assert forall|i: int| 0 <= i < pages.len() && !group.contains(i as usize) implies #[trigger] s[i]
        == pages[i] by {
        if g.contains(i as usize) {
            let k = choose|k: int| 0 <= k < g.len() && g[k] == i as usize;
            assert(group.contains(g[k]));
        }
    }
}

proof fn lemma_open_role(pages: Seq<PageModel>, group: Seq<usize>, m: int)
    requires
        0 <= m < open_members(pages, group).len(),
    ensures
        pages[open_members(pages, group)[m] as int].role != Role::Data,
    decreases group.len(),
{
    if group.len() > 0 {
        let h = open_members(pages, group.drop_last());
        if m < h.len() {
            lemma_open_role(pages, group.drop_last(), m);
        }
    }
}

proof fn lemma_last_sheet(pages: Seq<PageModel>, group: Seq<usize>)
    requires
        ascending(group, pages.len() as int),
    ensures
        last_sheet(pages, group) matches Some(o) ==> exists|k: int|
            0 <= k < group.len() && pages[#[trigger] group[k] as int].role == Role::Sheet
                && pages[group[k] as int].index == o,
    decreases group.len(),
{
    if group.len() > 0 {
        if pages[group.last() as int].role == Role::Sheet {
            assert(pages[group[group.len() - 1] as int].role == Role::Sheet);
        } else {
            let rest = group.drop_last();
            lemma_last_sheet(pages, rest);
            if last_sheet(pages, rest) is Some {
                let o = last_sheet(pages, rest)->0;
                let k = choose|k: int|
                    0 <= k < rest.len() && pages[#[trigger] rest[k] as int].role == Role::Sheet
                        && pages[rest[k] as int].index == o;
                assert(group[k] == rest[k]);
            }
        }
    }
}

/// A sheet outside the group has the entry number.
pub open spec fn sheet_outside(
    pages: Seq<PageModel>,
    group: Seq<usize>,
    n: int,
    index: usize,
) -> bool {
    exists|k: int|
        0 <= k < n && !group.contains(k as usize) && #[trigger] pages[k].role == Role::Sheet
            && pages[k].index == index
}

/// An entry that is no sheet and no data belongs to a sheet outside the group.
pub open spec fn owned_outside(
    pages: Seq<PageModel>,
    group: Seq<usize>,
    n: int,
    p: PageModel,
) -> bool {
    (p.role == Role::Picture || p.role == Role::Thumbnail) ==> match p.belongs_to {
        Some(o) => sheet_outside(pages, group, n, o),
        None => false,
    }
}

/// What holds after the first `n` entries.
pub open spec fn assigning_ok(s: Assigning, start: Seq<PageModel>, n: int) -> bool {
    &&& 0 <= n <= start.len()
    &&& same_but_roles(s.pages, start)
    &&& ascending(s.group, n)
    &&& forall|i: int|
        0 <= i < n && !s.group.contains(i as usize) ==> owned_outside(
            s.pages,
            s.group,
            n,
            #[trigger] s.pages[i],
        )
}

proof fn lemma_assigning(start: Seq<PageModel>, n: int)
    requires
        0 <= n <= start.len() <= usize::MAX,
    ensures
        assigning_ok(assigned_below(start, n), start, n),
    decreases n,
{
    if n > 0 {
        lemma_assigning(start, n - 1);
        let s = assigned_below(start, n - 1);
        if s.pages[n - 1].data is Fields {
            lemma_assign_table(s, start, n - 1);
        } else if s.pages[n - 1].data is Preview {
            lemma_assign_preview(s, start, n - 1);
        } else {
            lemma_assign_member(s, start, n - 1);
        }
    }
}

proof fn lemma_assign_table(s: Assigning, start: Seq<PageModel>, i: int)
    requires
        assigning_ok(s, start, i),
        i < start.len() <= usize::MAX,
        s.pages[i].data is Fields,
    ensures
        assigning_ok(assign_one(s, i), start, i + 1),
{
    let t = assign_one(s, i);
    assert forall|j: int| 0 <= j < i + 1 && !t.group.contains(j as usize) implies owned_outside(
        t.pages,
        t.group,
        i + 1,
        #[trigger] t.pages[j],
    ) by {
        if j < i {
            assert(t.pages[j] == s.pages[j]);
            lemma_outside_kept(s.pages, s.group, i, t.pages, t.group, t.pages[j]);
        }
    }
}

proof fn lemma_assign_member(s: Assigning, start: Seq<PageModel>, i: int)
    requires
        assigning_ok(s, start, i),
        i < start.len() <= usize::MAX,
        !(s.pages[i].data is Fields),
        !(s.pages[i].data is Preview),
    ensures
        assigning_ok(assign_one(s, i), start, i + 1),
{
    let t = assign_one(s, i);
    assert forall|j: int| 0 <= j < i + 1 && !t.group.contains(j as usize) implies owned_outside(
        t.pages,
        t.group,
        i + 1,
        #[trigger] t.pages[j],
    ) by {
        assert(t.group[t.group.len() - 1] == i);
        if j < i {
            if s.group.contains(j as usize) {
                let k = choose|k: int| 0 <= k < s.group.len() && s.group[k] == j as usize;
                assert(t.group[k] == j as usize);
            }
            lemma_outside_kept(s.pages, s.group, i, t.pages, t.group, t.pages[j]);
        }
    }
}

proof fn lemma_assign_preview(s: Assigning, start: Seq<PageModel>, i: int)
    requires
        assigning_ok(s, start, i),
        i < start.len() <= usize::MAX,
        s.pages[i].data is Preview,
    ensures
        assigning_ok(assign_one(s, i), start, i + 1),
{
    let t = assign_one(s, i);
    let shut = closed(s.pages, s.group, false);
    assert(ascending(s.group, s.pages.len() as int));
    lemma_closed_roles(s.pages, s.group, false);
    lemma_last_sheet(shut, s.group);
    lemma_closed_belongs(s, start, i, false);
    assert(t.pages == shut.update(i, t.pages[i]));
    assert forall|j: int| 0 <= j < t.pages.len() implies #[trigger] t.pages[j]
        == start[j].with_role(t.pages[j].role, t.pages[j].belongs_to) by {
        assert(s.pages[j] == start[j].with_role(s.pages[j].role, s.pages[j].belongs_to));
        assert(shut[j] == s.pages[j].with_role(shut[j].role, shut[j].belongs_to));
    }
    assert forall|j: int| 0 <= j < i + 1 && !t.group.contains(j as usize) implies owned_outside(
        t.pages,
        t.group,
        i + 1,
        #[trigger] t.pages[j],
    ) by {
        let q = t.pages[j];
        if (q.role == Role::Picture || q.role == Role::Thumbnail) {
            if j < i {
                assert(q == shut[j]);
                let o = q.belongs_to->0;
                let k = choose|k: int|
                    0 <= k < i && #[trigger] shut[k].role == Role::Sheet && shut[k].index == o;
                assert(t.pages[k] == shut[k]);
                assert(!t.group.contains(k as usize));
                assert(sheet_outside(t.pages, t.group, i + 1, o));
            } else {
                let o = q.belongs_to->0;
                let k = choose|k: int|
                    0 <= k < s.group.len() && shut[#[trigger] s.group[k] as int].role
                        == Role::Sheet && shut[s.group[k] as int].index == o;
                let m = s.group[k] as int;
                assert(t.pages[m] == shut[m]);
                assert(!t.group.contains(m as usize));
                assert(sheet_outside(t.pages, t.group, i + 1, o));
            }
        }
    }
}

/// A sheet outside the group stays one when the entry at `i` alone changes or
/// joins the group.
proof fn lemma_outside_kept(
    a: Seq<PageModel>,
    g: Seq<usize>,
    i: int,
    b: Seq<PageModel>,
    h: Seq<usize>,
    p: PageModel,
)
    requires
        0 <= i < a.len() <= usize::MAX,
        a.len() == b.len(),
        forall|k: int| 0 <= k < i ==> #[trigger] b[k] == a[k],
        h == g || h == g.push(i as usize),
        owned_outside(a, g, i, p),
    ensures
        owned_outside(b, h, i + 1, p),
{
    if (p.role == Role::Picture || p.role == Role::Thumbnail) {
        let o = p.belongs_to->0;
        let k = choose|k: int|
            0 <= k < i && !g.contains(k as usize) && #[trigger] a[k].role == Role::Sheet
                && a[k].index == o;
        if h.contains(k as usize) {
            let m = choose|m: int| 0 <= m < h.len() && h[m] == k as usize;
            if m < g.len() {
                assert(g[m] == k as usize);
            }
        }
        assert(b[k].role == Role::Sheet);
    }
}

/// Once the group is closed, every entry so far belongs to a sheet.
proof fn lemma_closed_belongs(s: Assigning, start: Seq<PageModel>, n: int, after_thumbnail: bool)
    requires
        assigning_ok(s, start, n),
        start.len() <= usize::MAX,
    ensures
        forall|j: int|
            0 <= j < n ==> {
                let q = #[trigger] closed(s.pages, s.group, after_thumbnail)[j];
                (q.role == Role::Picture || q.role == Role::Thumbnail) ==> match q.belongs_to {
                    Some(o) => exists|k: int|
                        0 <= k < n && #[trigger] closed(s.pages, s.group, after_thumbnail)[k].role
                            == Role::Sheet && closed(s.pages, s.group, after_thumbnail)[k].index
                            == o,
                    None => false,
                }
            },
{
    let shut = closed(s.pages, s.group, after_thumbnail);
    assert(ascending(s.group, s.pages.len() as int));
    lemma_closed_roles(s.pages, s.group, after_thumbnail);
    assert forall|j: int| 0 <= j < n implies {
        let q = #[trigger] shut[j];
        (q.role == Role::Picture || q.role == Role::Thumbnail) ==> match q.belongs_to {
            Some(o) => exists|k: int|
                0 <= k < n && #[trigger] shut[k].role == Role::Sheet && shut[k].index == o,
            None => false,
        }
    } by {
        let q = shut[j];
        if (q.role == Role::Picture || q.role == Role::Thumbnail) {
            if s.group.contains(j as usize) {
                let m = choose|m: int| 0 <= m < s.group.len() && s.group[m] == j as usize;
                lemma_group_owner(s.pages, s.group, after_thumbnail, m);
                let o = q.belongs_to->0;
                let k = choose|k: int|
                    0 <= k < s.group.len() && shut[#[trigger] s.group[k] as int].role
                        == Role::Sheet && shut[s.group[k] as int].index == o;
                assert(shut[s.group[k] as int].role == Role::Sheet);
            } else {
                assert(q == s.pages[j]);
                let o = q.belongs_to->0;
                let k = choose|k: int|
                    0 <= k < n && !s.group.contains(k as usize) && #[trigger] s.pages[k].role
                        == Role::Sheet && s.pages[k].index == o;
                assert(shut[k] == s.pages[k]);
            }
        }
    }
}

/// A picture of a closed group belongs to a sheet of the group.
proof fn lemma_group_owner(
    pages: Seq<PageModel>,
    group: Seq<usize>,
    after_thumbnail: bool,
    m: int,
)
    requires
        ascending(group, pages.len() as int),
        0 <= m < group.len(),
        closed(pages, group, after_thumbnail)[group[m] as int].role == Role::Picture || closed(
            pages,
            group,
            after_thumbnail,
        )[group[m] as int].role == Role::Thumbnail,
    ensures
        ({
            let s = closed(pages, group, after_thumbnail);
            match s[group[m] as int].belongs_to {
                Some(o) => exists|k: int|
                    0 <= k < group.len() && s[#[trigger] group[k] as int].role == Role::Sheet
                        && s[group[k] as int].index == o,
                None => false,
            }
        }),
{
    reveal(closed);
    let g = open_members(pages, group);
    let s = closed(pages, group, after_thumbnail);
    lemma_open_members(pages, group);
    lemma_settled(pages, g, g.len() as int);
    lemma_set_aside(pages, g, g.len() as int);
    lemma_closed_roles(pages, group, after_thumbnail);
    let i = group[m];
    assert(pages[i as int].role != Role::Data) by {
        if pages[i as int].role == Role::Data {
            if g.contains(i) {
                let x = choose|x: int| 0 <= x < g.len() && g[x] == i;
                lemma_open_role(pages, group, x);
            }
        }
    }
    assert(g.contains(i));
    let x = choose|x: int| 0 <= x < g.len() && g[x] == i;
    assert(s[g[x] as int] == member(pages, g, x) || s[g[x] as int].role == Role::Data);
    let o = s[i as int].belongs_to->0;
    lemma_owner_position(pages, g, x);
    let y = choose|y: int|
        0 <= y < g.len() && becomes_sheet(pages, g, y) && pages[#[trigger] g[y] as int].index == o;
    assert(s[g[y] as int] == member(pages, g, y));
    assert(group.contains(g[y]));
    let k = choose|k: int| 0 <= k < group.len() && group[k] == g[y];
    assert(s[group[k] as int].role == Role::Sheet);
}

proof fn lemma_owner_position(pages: Seq<PageModel>, g: Seq<usize>, x: int)
    requires
        0 <= x < g.len(),
        !becomes_sheet(pages, g, x),
    ensures
        match member(pages, g, x).belongs_to {
            Some(o) => exists|y: int|
                0 <= y < g.len() && becomes_sheet(pages, g, y) && pages[#[trigger] g[y] as int].index
                    == o,
            None => false,
        },
{
    lemma_before_position(pages, g, x);
    let image = |q: PageModel| q.is_image_page();
    let coded = |q: PageModel| !q.is_artwork();
    let e = first_member(pages, g, 0, image);
    let c = first_member(pages, g, 0, coded);
    lemma_first_member(pages, g, 0, image);
    lemma_first_member(pages, g, 0, coded);
    lemma_largest(pages, g, g.len());
    if sheet_before(pages, g, x) is None {
        if e < g.len() {
            assert(becomes_sheet(pages, g, e as int) && pages[g[e as int] as int].index
                == member(pages, g, x).belongs_to->0);
        } else if c < g.len() {
            lemma_from_position(pages, g, 0, c as int);
        } else {
            lemma_from_position(pages, g, 0, largest(pages, g, g.len()) as int);
        }
    }
}

proof fn lemma_before_position(pages: Seq<PageModel>, g: Seq<usize>, k: int)
    requires
        0 <= k <= g.len(),
    ensures
        sheet_before(pages, g, k) matches Some(o) ==> exists|y: int|
            0 <= y < g.len() && becomes_sheet(pages, g, y) && pages[#[trigger] g[y] as int].index
                == o,
    decreases k,
{
    if k > 0 {
        if becomes_sheet(pages, g, k - 1) {
            assert(pages[g[k - 1] as int].index == sheet_before(pages, g, k)->0);
        } else {
            lemma_before_position(pages, g, k - 1);
        }
    }
}

proof fn lemma_from_position(pages: Seq<PageModel>, g: Seq<usize>, k: int, sheet: int)
    requires
        0 <= k <= sheet < g.len(),
        becomes_sheet(pages, g, sheet),
    ensures
        match sheet_from(pages, g, k) {
            Some(o) => exists|y: int|
                0 <= y < g.len() && becomes_sheet(pages, g, y) && pages[#[trigger] g[y] as int].index
                    == o,
            None => false,
        },
    decreases g.len() - k,
{
    if becomes_sheet(pages, g, k) {
        assert(pages[g[k] as int].index == sheet_from(pages, g, k)->0);
    } else {
        lemma_from_position(pages, g, k + 1, sheet);
    }
}

/// What its data says of the role that an entry gets: a field table is data, a
/// preview of full size is a sheet, only a smaller preview is a thumbnail, and
/// only an image without a structure of its own is a picture. A sheet belongs
/// to nothing, nor does what became data.
pub open spec fn fits_role(p: PageModel, before: PageModel) -> bool {
    &&& p.data is Fields ==> p.role == Role::Data
    &&& p.full_size_preview() ==> p.role == Role::Sheet
    &&& p.role == Role::Thumbnail ==> p.data is Preview && !p.full_size_preview()
    &&& p.role == Role::Picture ==> p.is_artwork()
    &&& p.role == Role::Sheet ==> p.belongs_to is None
    &&& p.role == Role::Data ==> p.belongs_to is None || p == before && !(p.data is Fields)
}

/// An entry that waits in the open group.
spec fn waits(p: PageModel, before: PageModel) -> bool {
    &&& !(p.data is Fields)
    &&& p.data is Preview ==> p.full_size_preview() && p.role == Role::Sheet
    &&& p.role == Role::Data ==> p == before
}

/// Those of the first `n` entries that wait, and those that are settled.
spec fn roles_fit(s: Assigning, start: Seq<PageModel>, n: int) -> bool {
    forall|i: int|
        0 <= i < n ==> if s.group.contains(i as usize) {
            waits(#[trigger] s.pages[i], start[i])
        } else {
            fits_role(s.pages[i], start[i])
        }
}

proof fn lemma_none_before(
    pages: Seq<PageModel>,
    g: Seq<usize>,
    k: nat,
    cond: spec_fn(PageModel) -> bool,
    x: int,
)
    requires
        k <= x < g.len(),
        first_member(pages, g, k, cond) >= g.len(),
    ensures
        !cond(pages[g[x] as int]),
    decreases g.len() - k,
{
    if k < x {
        lemma_none_before(pages, g, k + 1, cond, x);
    }
}

/// Once the group is closed, every entry so far fits its role.
proof fn lemma_closed_fits(s: Assigning, start: Seq<PageModel>, n: int, after_thumbnail: bool)
    requires
        assigning_ok(s, start, n),
        roles_fit(s, start, n),
        start.len() <= usize::MAX,
    ensures
        forall|j: int|
            0 <= j < n ==> fits_role(
                #[trigger] closed(s.pages, s.group, after_thumbnail)[j],
                start[j],
            ),
{
    let shut = closed(s.pages, s.group, after_thumbnail);
    assert(ascending(s.group, s.pages.len() as int));
    lemma_closed_roles(s.pages, s.group, after_thumbnail);
    assert forall|j: int| 0 <= j < n implies fits_role(#[trigger] shut[j], start[j]) by {
        assert(s.pages[j] == start[j].with_role(s.pages[j].role, s.pages[j].belongs_to));
        if s.group.contains(j as usize) {
            assert(waits(s.pages[j], start[j]));
            let m = choose|m: int| 0 <= m < s.group.len() && s.group[m] == j as usize;
            lemma_member_fits(s.pages, s.group, after_thumbnail, m, start[j]);
        } else {
            assert(shut[j] == s.pages[j]);
        }
    }
}

proof fn lemma_member_fits(
    pages: Seq<PageModel>,
    group: Seq<usize>,
    after_thumbnail: bool,
    m: int,
    before: PageModel,
)
    requires
        ascending(group, pages.len() as int),
        0 <= m < group.len(),
        waits(pages[group[m] as int], before),
    ensures
        fits_role(closed(pages, group, after_thumbnail)[group[m] as int], before),
{
    reveal(closed);
    let g = open_members(pages, group);
    let i = group[m];
    lemma_open_members(pages, group);
    lemma_settled(pages, g, g.len() as int);
    lemma_set_aside(pages, g, g.len() as int);
    if g.contains(i) {
        let x = choose|x: int| 0 <= x < g.len() && g[x] == i;
        assert(settled(pages, g, g.len() as int)[g[x] as int] == member(pages, g, x));
        if !becomes_sheet(pages, g, x) {
            let coded = |q: PageModel| !q.is_artwork();
            if first_member(pages, g, 0, coded) >= g.len() {
                lemma_none_before(pages, g, 0, coded, x);
            }
            assert(pages[i as int].is_artwork());
        }
        if all_opaque(pages, g) {
            assert(pages[g[x] as int].is_opaque());
        }
    } else {
        assert(pages[i as int].role == Role::Data);
    }
}

proof fn lemma_roles_fit(start: Seq<PageModel>, n: int)
    requires
        0 <= n <= start.len() <= usize::MAX,
    ensures
        roles_fit(assigned_below(start, n), start, n),
    decreases n,
{
    if n > 0 {
        let i = n - 1;
        lemma_roles_fit(start, i);
        lemma_assigning(start, i);
        let s = assigned_below(start, i);
        let t = assigned_below(start, n);
        let shut = closed(s.pages, s.group, false);
        assert(ascending(s.group, s.pages.len() as int));
        lemma_closed_roles(s.pages, s.group, false);
        lemma_closed_fits(s, start, i, false);
        lemma_untouched(start, i);
        assert(s.pages[i] == start[i]);
        assert forall|j: int| 0 <= j < n implies if t.group.contains(j as usize) {
            waits(#[trigger] t.pages[j], start[j])
        } else {
            fits_role(t.pages[j], start[j])
        } by {
            if start[i].data is Fields {
                if j < i {
                    assert(t.pages[j] == s.pages[j]);
                } else if s.group.contains(i as usize) {
                    let k = choose|k: int| 0 <= k < s.group.len() && s.group[k] == i as usize;
                    assert(s.group[k] < i);
                }
            } else if start[i].data is Preview {
                if j < i {
                    assert(t.pages[j] == shut[j]);
                    assert(!t.group.contains(j as usize));
                } else if t.group.len() == 1 {
                    assert(t.group[0] == i as usize);
                }
            } else {
                assert(t.group[t.group.len() - 1] == i as usize);
                if j < i {
                    assert(t.pages[j] == s.pages[j]);
                    if s.group.contains(j as usize) {
                        let k = choose|k: int| 0 <= k < s.group.len() && s.group[k] == j as usize;
                        assert(t.group[k] == j as usize);
                    } else if t.group.contains(j as usize) {
                        let k = choose|k: int| 0 <= k < t.group.len() && t.group[k] == j as usize;
                        assert(s.group[k] == j as usize);
                    }
                }
            }
        }
    }
}

/// Entries that have not been met are as they were.
proof fn lemma_untouched(start: Seq<PageModel>, n: int)
    requires
        0 <= n <= start.len() <= usize::MAX,
    ensures
        forall|j: int| n <= j < start.len() ==> #[trigger] assigned_below(start, n).pages[j]
            == start[j],
    decreases n,
{
    if n > 0 {
        let i = n - 1;
        lemma_untouched(start, i);
        lemma_assigning(start, i);
        let s = assigned_below(start, i);
        assert(ascending(s.group, s.pages.len() as int));
        lemma_closed_roles(s.pages, s.group, false);
        let shut = closed(s.pages, s.group, false);
        assert forall|j: int| n <= j < start.len() implies #[trigger] assigned_below(
            start,
            n,
        ).pages[j] == start[j] by {
            assert(s.pages[j] == start[j]);
            if s.group.contains(j as usize) {
                let k = choose|k: int| 0 <= k < s.group.len() && s.group[k] == j as usize;
                assert(s.group[k] < i);
            }
            assert(shut[j] == s.pages[j]);
        }
    }
}

/// Settling the roles changes nothing else of an entry, every entry gets a role
/// that fits its data, and every picture and every thumbnail belongs to an
/// entry that is a sheet.
pub proof fn law_roles(pages: Seq<PageModel>)
    requires
        pages.len() <= usize::MAX,
    ensures
        same_but_roles(assigned(pages), pages),
        forall|j: int|
            0 <= j < pages.len() ==> fits_role(#[trigger] assigned(pages)[j], pages[j]),
        forall|j: int| 0 <= j < pages.len() ==> belongs(assigned(pages), #[trigger] assigned(pages)[j]),
{
    let n = pages.len() as int;
    lemma_assigning(pages, n);
    lemma_roles_fit(pages, n);
    let s = assigned_below(pages, n);
    lemma_closed_roles(s.pages, s.group, s.after_thumbnail);
    lemma_closed_belongs(s, pages, n, s.after_thumbnail);
    lemma_closed_fits(s, pages, n, s.after_thumbnail);
    let r = assigned(pages);
    assert forall|j: int| 0 <= j < n implies belongs(r, #[trigger] r[j]) by {
        let q = r[j];
        if (q.role == Role::Picture || q.role == Role::Thumbnail) {
            let o = q.belongs_to->0;
            let k = choose|k: int|
                0 <= k < n && #[trigger] r[k].role == Role::Sheet && r[k].index == o;
            assert(has_sheet(r, o));
        }
    }
}

// --------------------------------------------------------------- the code

/// Gives the entry at `i` a role.
fn set_role(pages: &mut Vec<Page>, i: usize, role: Role, owner: Option<usize>)
    requires
        i < old(pages)@.len(),
    ensures
        final(pages)@.len() == old(pages)@.len(),
        page_models(final(pages)@) == page_models(old(pages)@).update(
            i as int,
            old(pages)@[i as int]@.with_role(role, owner),
        ),
{
    pages[i].role = role;
    pages[i].belongs_to = owner;
    proof {
        assert(page_models(pages@) =~= page_models(old(pages)@).update(
            i as int,
            old(pages)@[i as int]@.with_role(role, owner),
        ));
    }
}

fn is_artwork(p: &Page) -> (r: bool)
    ensures
        r == p@.is_artwork(),
{
    match p.data {
        PageData::Jpeg { .. } => true,
        PageData::Bare { .. } => true,
        _ => false,
    }
}

fn is_image_page(p: &Page) -> (r: bool)
    ensures
        r == p@.is_image_page(),
{
    match p.data {
        PageData::Jpeg { .. } => p.paper.is_some(),
        _ => false,
    }
}

fn is_opaque(p: &Page) -> (r: bool)
    ensures
        r == p@.is_opaque(),
{
    match p.data {
        PageData::Bare { .. } => p.paper.is_none() && p.pixels.is_none(),
        _ => false,
    }
}

fn pixel_count(p: &Page) -> (n: u64)
    ensures
        n == p@.pixel_count(),
{
    match p.pixels {
        Some((w, h)) => {
            proof {
                assert(0 <= w * h <= 0xFFFF_FFFF * 0xFFFF_FFFF) by (nonlinear_arith)
                    requires
                        0 <= w <= 0xFFFF_FFFF,
                        0 <= h <= 0xFFFF_FFFF,
                ;
            }
            w as u64 * h as u64
        },
        None => 0,
    }
}

/// Which members of a group are sheets, and the sheet that takes the pictures
/// standing before every sheet.
fn find_sheets(pages: &Vec<Page>, g: &Vec<usize>) -> (r: (Vec<bool>, Option<usize>))
    requires
        ascending(g@, pages@.len() as int),
    ensures
        r.0@.len() == g@.len(),
        forall|k: int|
            0 <= k < g@.len() ==> #[trigger] r.0@[k] == becomes_sheet(page_models(pages@), g@, k),
        r.1 == default_owner(page_models(pages@), g@),
{
    let ghost m = page_models(pages@);
    let ghost image = |q: PageModel| q.is_image_page();
    let ghost coded = |q: PageModel| !q.is_artwork();
    let mut first_image: usize = 0;
    while first_image < g.len() && !is_image_page(&pages[g[first_image]])
        invariant
            first_image <= g@.len(),
            ascending(g@, pages@.len() as int),
            m == page_models(pages@),
            image == (|q: PageModel| q.is_image_page()),
            first_member(m, g@, 0, image) == first_member(m, g@, first_image as nat, image),
        decreases g@.len() - first_image,
    {
        first_image += 1;
    }
    let mut first_coded: usize = 0;
    while first_coded < g.len() && is_artwork(&pages[g[first_coded]])
        invariant
            first_coded <= g@.len(),
            ascending(g@, pages@.len() as int),
            m == page_models(pages@),
            coded == (|q: PageModel| !q.is_artwork()),
            first_member(m, g@, 0, coded) == first_member(m, g@, first_coded as nat, coded),
        decreases g@.len() - first_coded,
    {
        first_coded += 1;
    }
    let mut best: usize = 0;
    let mut n: usize = 1;
    while n < g.len()
        invariant
            1 <= n,
            n <= g@.len() || g@.len() == 0,
            best < n,
            ascending(g@, pages@.len() as int),
            m == page_models(pages@),
            best == largest(m, g@, n as nat),
        decreases g@.len() - n,
    {
        if pixel_count(&pages[g[n]]) >= pixel_count(&pages[g[best]]) {
            best = n;
        }
        n += 1;
    }
    let mut flags: Vec<bool> = Vec::new();
    let mut k: usize = 0;
    while k < g.len()
        invariant
            k <= g@.len(),
            flags@.len() == k,
            ascending(g@, pages@.len() as int),
            m == page_models(pages@),
            first_image == first_member(m, g@, 0, |q: PageModel| q.is_image_page()),
            first_coded == first_member(m, g@, 0, |q: PageModel| !q.is_artwork()),
            first_image <= g@.len(),
            first_coded <= g@.len(),
            best == largest(m, g@, g@.len()) || g@.len() == 0,
            forall|j: int| 0 <= j < k ==> #[trigger] flags@[j] == becomes_sheet(m, g@, j),
        decreases g@.len() - k,
    {
        let p = &pages[g[k]];
        let sheet: bool = if first_image < g.len() {
            is_image_page(p) || !is_artwork(p)
        } else if first_coded < g.len() {
            !is_artwork(p) || k < first_coded
        } else {
            k == best
        };
        flags.push(sheet);
        k += 1;
    }
    if first_image < g.len() {
        return (flags, Some(pages[g[first_image]].index));
    }
    let mut j: usize = 0;
    while j < g.len()
        invariant
            j <= g@.len(),
            flags@.len() == g@.len(),
            ascending(g@, pages@.len() as int),
            m == page_models(pages@),
            first_image == first_member(m, g@, 0, |q: PageModel| q.is_image_page()),
            first_image >= g@.len(),
            forall|i: int| 0 <= i < g@.len() ==> #[trigger] flags@[i] == becomes_sheet(m, g@, i),
            sheet_from(m, g@, 0) == sheet_from(m, g@, j as int),
        decreases g@.len() - j,
    {
        if flags[j] {
            return (flags, Some(pages[g[j]].index));
        }
        j += 1;
    }
    (flags, None)
}

/// The members of a group that are not data tables.
fn members(pages: &Vec<Page>, group: &Vec<usize>) -> (g: Vec<usize>)
    requires
        ascending(group@, pages@.len() as int),
    ensures
        g@ == open_members(page_models(pages@), group@),
        ascending(g@, pages@.len() as int),
{
    let mut g: Vec<usize> = Vec::new();
    let mut i: usize = 0;
    while i < group.len()
        invariant
            i <= group@.len(),
            ascending(group@, pages@.len() as int),
            g@ == open_members(page_models(pages@), group@.take(i as int)),
        decreases group@.len() - i,
    {
        let k: usize = group[i];
        proof {
            assert(group@.take(i + 1).drop_last() =~= group@.take(i as int));
        }
        if pages[k].role != Role::Data {
            g.push(k);
        }
        i += 1;
    }
    proof {
        assert(group@.take(i as int) =~= group@);
        lemma_open_members(page_models(pages@), group@);
    }
    g
}

fn none_has_shape(pages: &Vec<Page>, g: &Vec<usize>) -> (r: bool)
    requires
        ascending(g@, pages@.len() as int),
    ensures
        r == all_opaque(page_models(pages@), g@),
{
    let mut i: usize = 0;
    while i < g.len()
        invariant
            i <= g@.len(),
            ascending(g@, pages@.len() as int),
            forall|k: int|
                0 <= k < i ==> #[trigger] page_models(pages@)[g@[k] as int].is_opaque(),
        decreases g@.len() - i,
    {
        if !is_opaque(&pages[g[i]]) {
            assert(!page_models(pages@)[g@[i as int] as int].is_opaque());
            return false;
        }
        i += 1;
    }
    true
}

fn put_aside(pages: &mut Vec<Page>, g: &Vec<usize>)
    requires
        ascending(g@, old(pages)@.len() as int),
    ensures
        final(pages)@.len() == old(pages)@.len(),
        page_models(final(pages)@) == set_aside(page_models(old(pages)@), g@, g@.len() as int),
{
    let ghost start = page_models(pages@);
    let mut n: usize = 0;
    while n < g.len()
        invariant
            n <= g@.len(),
            ascending(g@, pages@.len() as int),
            pages@.len() == start.len(),
            page_models(pages@) == set_aside(start, g@, n as int),
        decreases g@.len() - n,
    {
        let k: usize = g[n];
        proof {
            lemma_set_aside(start, g@, n as int);
            assert(pages@[k as int]@ == page_models(pages@)[k as int]);
        }
        set_role(pages, k, Role::Data, None);
        n += 1;
    }
}

#[verifier::rlimit(60)]
#[verifier::spinoff_prover]
fn settle(pages: &mut Vec<Page>, g: &Vec<usize>)
    requires
        ascending(g@, old(pages)@.len() as int),
    ensures
        final(pages)@.len() == old(pages)@.len(),
        page_models(final(pages)@) == settled(page_models(old(pages)@), g@, g@.len() as int),
{
    let ghost start = page_models(pages@);
    let (flags, owner) = find_sheets(pages, g);
    let mut current: Option<usize> = None;
    let mut n: usize = 0;
    while n < g.len()
        invariant
            n <= g@.len(),
            ascending(g@, pages@.len() as int),
            pages@.len() == start.len(),
            flags@.len() == g@.len(),
            forall|k: int| 0 <= k < g@.len() ==> #[trigger] flags@[k] == becomes_sheet(start, g@, k),
            owner == default_owner(start, g@),
            current == sheet_before(start, g@, n as int),
            page_models(pages@) == settled(start, g@, n as int),
        decreases g@.len() - n,
    {
        let k: usize = g[n];
        proof {
            lemma_settled(start, g@, n as int);
            assert(pages@[k as int]@ == page_models(pages@)[k as int]);
        }
        let sheet: bool = flags[n];
        let index: usize = pages[k].index;
        let of: Option<usize> = if sheet {
            None
        } else {
            match current {
                Some(o) => Some(o),
                None => owner,
            }
        };
        set_role(
            pages,
            k,
            if sheet {
                Role::Sheet
            } else {
                Role::Picture
            },
            of,
        );
        if sheet {
            current = Some(index);
        }
        n += 1;
    }
}

/// Settles the roles of the entries between two thumbnails.
fn close_group(pages: &mut Vec<Page>, group: &Vec<usize>, after_thumbnail: bool)
    requires
        ascending(group@, old(pages)@.len() as int),
    ensures
        final(pages)@.len() == old(pages)@.len(),
        page_models(final(pages)@) == closed(page_models(old(pages)@), group@, after_thumbnail),
{
    proof {
        reveal(closed);
    }
    let g = members(pages, group);
    if after_thumbnail && none_has_shape(pages, &g) {
        put_aside(pages, &g);
    } else {
        settle(pages, &g);
    }
}

fn find_last_sheet(pages: &Vec<Page>, group: &Vec<usize>) -> (r: Option<usize>)
    requires
        ascending(group@, pages@.len() as int),
    ensures
        r == last_sheet(page_models(pages@), group@),
{
    let mut n: usize = group.len();
    proof {
        assert(group@.take(n as int) =~= group@);
    }
    while n > 0
        invariant
            n <= group@.len(),
            ascending(group@, pages@.len() as int),
            last_sheet(page_models(pages@), group@) == last_sheet(
                page_models(pages@),
                group@.take(n as int),
            ),
        decreases n,
    {
        proof {
            assert(group@.take(n as int).drop_last() =~= group@.take(n - 1));
        }
        let p = &pages[group[n - 1]];
        if p.role == Role::Sheet {
            return Some(p.index);
        }
        n -= 1;
    }
    None
}

/// Settles the role of every entry of the page table.
pub fn assign_roles(pages: &mut Vec<Page>)
    ensures
        page_models(final(pages)@) == assigned(page_models(old(pages)@)),
{
    let ghost start = page_models(pages@);
    let n: usize = pages.len();
    let mut group: Vec<usize> = Vec::new();
    let mut after_thumbnail: bool = false;
    let mut i: usize = 0;
    while i < n
        invariant
            i <= n,
            n == pages@.len(),
            n == start.len(),
            assigned_below(start, i as int) == (Assigning {
                pages: page_models(pages@),
                group: group@,
                after_thumbnail,
            }),
            ascending(group@, i as int),
        decreases n - i,
    {
        proof {
            lemma_assigning(start, i as int);
            assert(ascending(group@, pages@.len() as int));
            lemma_closed_roles(page_models(pages@), group@, false);
            assert(!group@.contains(i));
        }
        match pages[i].data {
            PageData::Fields { .. } => {
                set_role(pages, i, Role::Data, None);
                after_thumbnail = false;
            },
            PageData::Preview { .. } => {
                let full: bool = pages[i].is_full_size_preview();
                close_group(pages, &group, false);
                proof {
                    assert(pages@[i as int]@ == page_models(pages@)[i as int]);
                }
                let owner = find_last_sheet(pages, &group);
                group = Vec::new();
                if full {
                    set_role(pages, i, Role::Sheet, None);
                    group.push(i);
                    after_thumbnail = false;
                    proof {
                        assert(group@ =~= seq![i]);
                    }
                } else {
                    match owner {
                        Some(o) => {
                            set_role(pages, i, Role::Thumbnail, Some(o));
                            after_thumbnail = true;
                        },
                        None => {
                            set_role(pages, i, Role::Sheet, None);
                            after_thumbnail = false;
                        },
                    }
                }
            },
            _ => {
                group.push(i);
            },
        }
        i += 1;
    }
    close_group(pages, &group, after_thumbnail);
}

} // verus!
