//! The endpoint registry and the round-robin selection strategy.
//!
//! A registry holds an ordered list of endpoints, fixed after construction,
//! and a selection cursor: a monotonically increasing counter of selection
//! attempts, used modulo the registry length to derive candidate positions.
//! Selection walks the list cyclically from the cursor's position and
//! returns the first endpoint whose liveness flag is set; one call inspects
//! at most `len` candidates and the counter grows by one per attempt.

use vstd::arithmetic::div_mod::lemma_fundamental_div_mod;
use vstd::arithmetic::div_mod::lemma_fundamental_div_mod_converse;
use vstd::arithmetic::div_mod::lemma_mod_division_less_than_divisor;
use vstd::arithmetic::div_mod::lemma_small_mod;
use vstd::prelude::*;

verus! {

/// One backend node address with its observed liveness and latency.
/// The latency field is informational only; selection never reads it.
#[derive(Clone)]
pub struct Endpoint {
    pub url: String,
    pub latency: u64,
    pub alive: bool,
}

/// The mathematical image of an [`Endpoint`].
pub struct EndpointView {
    pub url: Seq<char>,
    pub latency: u64,
    pub alive: bool,
}

impl View for Endpoint {
    type V = EndpointView;

    open spec fn view(&self) -> EndpointView {
        EndpointView { url: self.url@, latency: self.latency, alive: self.alive }
    }
}

/// The cyclic successor of position `i` in a list of length `len`.
pub open spec fn succ(len: int, i: int) -> int {
    if i + 1 == len {
        0
    } else {
        i + 1
    }
}

/// The position reached from `start` after `k` cyclic steps.
pub open spec fn adv(len: int, start: int, k: nat) -> int
    decreases k,
{
    if k == 0 {
        start
    } else {
        adv(len, succ(len, start), (k - 1) as nat)
    }
}

/// The cyclic distance from `start` forward to `j`.
pub open spec fn cdist(len: int, start: int, j: int) -> int {
    if j >= start {
        j - start
    } else {
        j - start + len
    }
}

/// The first alive position reached from `start` within `k` cyclic steps.
pub open spec fn first_alive(eps: Seq<EndpointView>, start: int, k: nat) -> Option<int>
    decreases k,
{
    if k == 0 {
        None
    } else if eps[start].alive {
        Some(start)
    } else {
        first_alive(eps, succ(eps.len() as int, start), (k - 1) as nat)
    }
}

/// The position a selection starting at cursor position `start` returns:
/// the first alive position in cyclic order, searching one full pass.
pub open spec fn sel_index(eps: Seq<EndpointView>, start: int) -> Option<int> {
    first_alive(eps, start, eps.len())
}

/// The cursor position after one selection that started at `start`.
pub open spec fn cursor_after(eps: Seq<EndpointView>, start: int) -> int {
    match sel_index(eps, start) {
        Some(i) => succ(eps.len() as int, i),
        None => start,
    }
}

/// How many endpoints are alive.
pub open spec fn count_alive(eps: Seq<EndpointView>) -> nat
    decreases eps.len(),
{
    if eps.len() == 0 {
        0
    } else {
        count_alive(eps.drop_last()) + (if eps.last().alive {
            1nat
        } else {
            0nat
        })
    }
}

/// The first position whose url equals `url`, searching from position `i`.
pub open spec fn find_url_from(eps: Seq<EndpointView>, url: Seq<char>, i: int) -> Option<int>
    decreases eps.len() - i,
{
    if i < 0 || i >= eps.len() {
        None
    } else if eps[i].url == url {
        Some(i)
    } else {
        find_url_from(eps, url, i + 1)
    }
}

/// The first position whose url equals `url`.
pub open spec fn find_url(eps: Seq<EndpointView>, url: Seq<char>) -> Option<int> {
    find_url_from(eps, url, 0)
}

/// Character-for-character string equality.
pub fn str_eq(a: &str, b: &str) -> (r: bool)
    ensures
        r == (a@ == b@),
{
    let alen = a.unicode_len();
    let blen = b.unicode_len();
    if alen != blen {
        assert(a@ != b@) by {
            assert(a@.len() != b@.len());
        }
        return false;
    }
    let mut i: usize = 0;
    while i < alen
        invariant
            0 <= i <= alen,
            alen == a@.len(),
            alen == b@.len(),
            forall|j: int| 0 <= j < i ==> a@[j] == b@[j],
        decreases alen - i,
    {
        if a.get_char(i) != b.get_char(i) {
            return false;
        }
        i = i + 1;
    }
    proof {
        assert(a@ =~= b@);
    }
    true
}

/// Round-robin selection over a fixed list of endpoints: the registry.
/// The cursor is a counter of all selection attempts ever made; the
/// candidate position of an attempt is the counter reduced modulo the
/// registry length, and `current_index` caches that residue.
pub struct RoundRobinStrategy {
    endpoints: Vec<Endpoint>,
    current_index: usize,
    counter: Ghost<nat>,
}

impl RoundRobinStrategy {
    /// The registry's endpoint list, as a sequence of endpoint views.
    pub closed spec fn eps(&self) -> Seq<EndpointView> {
        self.endpoints@.map_values(|e: Endpoint| e@)
    }

    /// The selection cursor: a counter that grows by one for every
    /// selection attempt and never decreases; attempts inspect the
    /// position `cursor() % len`.
    pub closed spec fn cursor(&self) -> nat {
        self.counter@
    }

    #[verifier::type_invariant]
    spec fn wf(self) -> bool {
        self.endpoints@.len() == 0 || self.current_index as int == (self.counter@ as int) % (
        self.endpoints@.len() as int)
    }

    pub fn new(endpoints: Vec<Endpoint>) -> (s: Self)
        ensures
            s.eps() == endpoints@.map_values(|e: Endpoint| e@),
            s.cursor() == 0,
    {
        proof {
            if endpoints@.len() > 0 {
                lemma_small_mod(0, endpoints@.len());
            }
        }
        RoundRobinStrategy { endpoints, current_index: 0, counter: Ghost(0) }
    }

    /// Read access to the endpoint list; all writes go through [`Self::mutate`].
    pub fn get_endpoints_mut(&mut self) -> (r: &Vec<Endpoint>)
        ensures
            *final(self) == *old(self),
            r@.map_values(|e: Endpoint| e@) == old(self).eps(),
    {
        proof {
            use_type_invariant(&*self);
        }
        &self.endpoints
    }

    /// How many endpoints are currently alive.
    pub fn healthy_count(&self) -> (r: u32)
        requires
            self.eps().len() <= u32::MAX,
        ensures
            r == count_alive(self.eps()),
    {
        let len = self.endpoints.len();
        let mut count: u32 = 0;
        let mut i: usize = 0;
        while i < len
            invariant
                0 <= i <= len,
                len == self.eps().len(),
                len <= u32::MAX,
                count == count_alive(self.eps().take(i as int)),
                count <= i,
            decreases len - i,
        {
            proof {
                assert(self.eps().take(i + 1).drop_last() =~= self.eps().take(i as int));
                assert(self.eps().take(i + 1).last() == self.eps()[i as int]);
            }
            if self.endpoints[i].alive {
                count = count + 1;
            }
            i = i + 1;
        }
        proof {
            assert(self.eps().take(len as int) =~= self.eps());
        }
        count
    }

    /// Pick the next endpoint to serve a request: starting at the cursor's
    /// position, walk the list cyclically and return the first alive
    /// endpoint; when nothing is alive after one full pass, or the registry
    /// is empty, return nothing. The cursor advances exactly once per
    /// attempt — by the distance walked on a hit, by `len` on a failed full
    /// pass — and never decreases, so its position lands just past a
    /// returned endpoint. Liveness flags and the list itself are never
    /// changed by selection.
    pub fn select_next(&mut self) -> (r: Option<&Endpoint>)
        ensures
            final(self).eps() == old(self).eps(),
            final(self).cursor() >= old(self).cursor(),
            old(self).eps().len() == 0 ==> r is None && final(self).cursor() == old(
                self,
            ).cursor(),
            old(self).eps().len() > 0 ==> ({
                let eps = old(self).eps();
                let len = eps.len() as int;
                let start = (old(self).cursor() as int) % len;
                &&& (match sel_index(eps, start) {
                    Some(i) => final(self).cursor() == old(self).cursor() + cdist(
                        len,
                        start,
                        i,
                    ) + 1,
                    None => final(self).cursor() == old(self).cursor() + len,
                })
                &&& final(self).cursor() > old(self).cursor()
                &&& (final(self).cursor() as int) % len == cursor_after(eps, start)
                &&& (match r {
                    Some(e) => sel_index(eps, start) matches Some(i) && e@ == eps[i]
                        && eps[i].alive,
                    None => sel_index(eps, start) is None,
                })
                &&& ((r is Some) <==> exists|j: int|
                    0 <= j < eps.len() && (#[trigger] eps[j]).alive)
            }),
    {
        proof {
            use_type_invariant(&*self);
        }
        let ghost geps = self.eps();
        let ghost c = self.counter@;
        let len = self.endpoints.len();
        if len == 0 {
            return None;
        }
        proof {
            lemma_mod_division_less_than_divisor(c as int, len as int);
        }
        let start = self.current_index;
        let mut idx = start;
        let mut k: usize = 0;
        while k < len
            invariant
                self.endpoints == old(self).endpoints,
                self.current_index == old(self).current_index,
                self.counter@ == c,
                c == old(self).cursor(),
                geps == self.eps(),
                len == self.endpoints.len(),
                0 < len == geps.len(),
                start == self.current_index,
                start as int == (c as int) % (len as int),
                0 <= start < len,
                0 <= idx < len,
                k <= len,
                idx == adv(len as int, start as int, k as nat),
                first_alive(geps, start as int, k as nat) is None,
            decreases len - k,
        {
            proof {
                lemma_first_alive_step(geps, start as int, k as nat);
            }
            if self.endpoints[idx].alive {
                let cand = idx;
                proof {
                    lemma_first_alive_mono(geps, start as int, (k + 1) as nat, geps.len());
                    assert(sel_index(geps, start as int) == Some(cand as int));
                    lemma_adv_cdist(len as int, start as int, k as nat);
                    lemma_mod_shift(c as int, (k + 1) as nat, len as int);
                    lemma_adv_succ(len as int, start as int, k as nat);
                }
                let next = if cand + 1 == len {
                    0
                } else {
                    cand + 1
                };
                let mut eps_vec: Vec<Endpoint> = Vec::new();
                core::mem::swap(&mut eps_vec, &mut self.endpoints);
                *self = RoundRobinStrategy {
                    endpoints: eps_vec,
                    current_index: next,
                    counter: Ghost(c + k as nat + 1),
                };
                return Some(&self.endpoints[cand]);
            }
            proof {
                lemma_adv_succ(len as int, start as int, k as nat);
            }
            idx = if idx + 1 == len {
                0
            } else {
                idx + 1
            };
            k = k + 1;
        }
        proof {
            lemma_first_alive_char(geps, start as int, geps.len());
            assert forall|m: int| 0 <= m < geps.len() implies !(#[trigger] geps[m]).alive by {
                assert(0 <= cdist(len as int, start as int, m) < len);
            }
            let q = (c as int) / (len as int);
            lemma_fundamental_div_mod(c as int, len as int);
            assert((c as int) + (len as int) == (q + 1) * (len as int) + (start as int))
                by (nonlinear_arith)
                requires
                    (c as int) == (len as int) * q + (start as int),
            ;
            lemma_fundamental_div_mod_converse(
                (c as int) + (len as int),
                len as int,
                q + 1,
                start as int,
            );
        }
        self.counter = Ghost(c + len as nat);
        None
    }

    /// Set the liveness flag of the first endpoint whose url is `url`, in
    /// place; a registry without that url is left unchanged. This is the one
    /// external write path into an endpoint's liveness.
    pub fn mutate(&mut self, url: &str, alive: bool)
        ensures
            final(self).cursor() == old(self).cursor(),
            match find_url(old(self).eps(), url@) {
                Some(i) => final(self).eps() == old(self).eps().update(
                    i,
                    (EndpointView { alive, ..old(self).eps()[i] }),
                ),
                None => final(self).eps() == old(self).eps(),
            },
    {
        proof {
            use_type_invariant(&*self);
        }
        let len = self.endpoints.len();
        let mut i: usize = 0;
        while i < len
            invariant
                0 <= i <= len,
                len == self.eps().len(),
                *self == *old(self),
                find_url(old(self).eps(), url@) == find_url_from(old(self).eps(), url@, i as int),
            decreases len - i,
        {
            if str_eq(self.endpoints[i].url.as_str(), url) {
                proof {
                    use_type_invariant(&*self);
                }
                self.endpoints[i].alive = alive;
                proof {
                    assert(self.eps() =~= old(self).eps().update(
                        i as int,
                        (EndpointView { alive, ..old(self).eps()[i as int] }),
                    ));
                }
                return ;
            }
            i = i + 1;
        }
    }
}

/// What any endpoint-choosing strategy owes its callers: selection hands
/// out an alive endpoint of the registry exactly when one is alive, without
/// changing the registry, and the count is the number of alive endpoints.
pub trait EndpointChooseStrategy: Send + Sync {
    /// The strategy's registry, as a sequence of endpoint views.
    spec fn reg_view(&self) -> Seq<EndpointView>;

    /// Pick the endpoint to serve the next request, or nothing when no
    /// endpoint is alive.
    fn get_endpoint(&mut self) -> (r: Option<&Endpoint>)
        ensures
            final(self).reg_view() == old(self).reg_view(),
            (match r {
                Some(e) => e@.alive && exists|i: int|
                    0 <= i < old(self).reg_view().len() && (#[trigger] old(self).reg_view()[i])
                        == e@,
                None => true,
            }),
            ((r is Some) <==> exists|j: int|
                0 <= j < old(self).reg_view().len() && (#[trigger] old(
                    self,
                ).reg_view()[j]).alive),
    ;

    /// How many endpoints are currently alive.
    fn available_count(&self) -> (r: u32)
        requires
            self.reg_view().len() <= u32::MAX,
        ensures
            r == count_alive(self.reg_view()),
    ;
}

impl EndpointChooseStrategy for RoundRobinStrategy {
    closed spec fn reg_view(&self) -> Seq<EndpointView> {
        self.eps()
    }

    fn get_endpoint(&mut self) -> (r: Option<&Endpoint>) {
        let ghost geps = self.eps();
        let r = self.select_next();
        proof {
            if geps.len() > 0 {
                let start = (old(self).cursor() as int) % (geps.len() as int);
                if r is Some {
                    let i = sel_index(geps, start)->Some_0;
                    lemma_first_alive_char(geps, start, geps.len());
                    assert(0 <= i < geps.len() && geps[i] == r->Some_0@);
                }
            }
        }
        r
    }

    fn available_count(&self) -> (r: u32) {
        self.healthy_count()
    }
}

/// Cyclic stepping stays within the list.
proof fn lemma_adv_range(len: int, start: int, k: nat)
    requires
        0 <= start < len,
    ensures
        0 <= adv(len, start, k) < len,
    decreases k,
{
    if k > 0 {
        lemma_adv_range(len, succ(len, start), (k - 1) as nat);
    }
}

/// Adding one to a number advances its residue to the cyclic successor.
proof fn lemma_mod_step(x: int, len: int)
    requires
        len > 0,
    ensures
        (x + 1) % len == succ(len, x % len),
{
    lemma_mod_division_less_than_divisor(x, len);
    lemma_fundamental_div_mod(x, len);
    let q = x / len;
    let r = x % len;
    if r + 1 < len {
        assert(x + 1 == q * len + (r + 1)) by (nonlinear_arith)
            requires
                x == len * q + r,
        ;
        lemma_fundamental_div_mod_converse(x + 1, len, q, r + 1);
    } else {
        assert(x + 1 == (q + 1) * len + 0) by (nonlinear_arith)
            requires
                x == len * q + r,
                r + 1 == len,
        ;
        lemma_fundamental_div_mod_converse(x + 1, len, q + 1, 0);
    }
}

/// Adding `k` to a number takes its residue `k` cyclic steps forward.
proof fn lemma_mod_shift(c: int, k: nat, len: int)
    requires
        len > 0,
    ensures
        (c + k) % len == adv(len, c % len, k),
    decreases k,
{
    lemma_mod_division_less_than_divisor(c, len);
    if k > 0 {
        lemma_mod_shift(c, (k - 1) as nat, len);
        lemma_mod_step(c + k - 1, len);
        lemma_adv_succ(len, c % len, (k - 1) as nat);
    }
}

/// The position `k` cyclic steps from the start lies at cyclic distance
/// `k`, as long as a full cycle is not completed.
proof fn lemma_adv_cdist(len: int, start: int, k: nat)
    requires
        0 <= start < len,
        k < len,
    ensures
        cdist(len, start, adv(len, start, k)) == k,
    decreases k,
{
    if k > 0 {
        lemma_adv_cdist(len, start, (k - 1) as nat);
        lemma_adv_succ(len, start, (k - 1) as nat);
        lemma_adv_range(len, start, (k - 1) as nat);
    }
}

/// Taking one more cyclic step advances the reached position by one.
proof fn lemma_adv_succ(len: int, start: int, k: nat)
    requires
        0 <= start < len,
    ensures
        adv(len, start, (k + 1) as nat) == succ(len, adv(len, start, k)),
    decreases k,
{
    if k == 0 {
        assert(adv(len, succ(len, start), 0) == succ(len, start));
        assert(adv(len, start, 1) == adv(len, succ(len, start), 0));
    } else {
        lemma_adv_succ(len, succ(len, start), (k - 1) as nat);
        assert(adv(len, start, (k + 1) as nat) == adv(len, succ(len, start), k));
        assert(adv(len, start, k) == adv(len, succ(len, start), (k - 1) as nat));
    }
}

/// A failed search of `k` steps is decided at step `k + 1` by the endpoint
/// `k` cyclic steps from the start.
proof fn lemma_first_alive_step(eps: Seq<EndpointView>, start: int, k: nat)
    requires
        0 <= start < eps.len(),
        first_alive(eps, start, k) is None,
    ensures
        first_alive(eps, start, (k + 1) as nat) == (if eps[adv(eps.len() as int, start, k)].alive {
            Some(adv(eps.len() as int, start, k))
        } else {
            None::<int>
        }),
    decreases k,
{
    let len = eps.len() as int;
    if k == 0 {
        assert(adv(len, start, 0) == start);
        assert(first_alive(eps, succ(len, start), 0) is None);
        assert(first_alive(eps, start, 1) == (if eps[start].alive {
            Some(start)
        } else {
            None::<int>
        }));
    } else {
        assert(!eps[start].alive);
        lemma_first_alive_step(eps, succ(len, start), (k - 1) as nat);
        assert(first_alive(eps, start, (k + 1) as nat) == first_alive(eps, succ(len, start), k));
        assert(adv(len, start, k) == adv(len, succ(len, start), (k - 1) as nat));
    }
}

/// A search that has found an alive endpoint keeps its answer when allowed
/// more steps.
proof fn lemma_first_alive_mono(eps: Seq<EndpointView>, start: int, k: nat, n: nat)
    requires
        0 <= start < eps.len(),
        first_alive(eps, start, k) is Some,
        k <= n,
    ensures
        first_alive(eps, start, n) == first_alive(eps, start, k),
    decreases k,
{
    if !eps[start].alive {
        lemma_first_alive_mono(eps, succ(eps.len() as int, start), (k - 1) as nat, (n - 1) as nat);
    }
}

/// What a bounded cyclic search returns: the alive endpoint nearest to the
/// start in cyclic distance, provided it is within reach; `None` exactly
/// when every endpoint within reach is dead.
proof fn lemma_first_alive_char(eps: Seq<EndpointView>, start: int, k: nat)
    requires
        0 <= start < eps.len(),
        k <= eps.len(),
    ensures
        match first_alive(eps, start, k) {
            Some(i) => {
                &&& 0 <= i < eps.len()
                &&& eps[i].alive
                &&& cdist(eps.len() as int, start, i) < k
                &&& forall|m: int|
                    0 <= m < eps.len() && cdist(eps.len() as int, start, m) < cdist(
                        eps.len() as int,
                        start,
                        i,
                    ) ==> !(#[trigger] eps[m]).alive
            },
            None => forall|m: int|
                0 <= m < eps.len() && cdist(eps.len() as int, start, m) < k ==> !(
                #[trigger] eps[m]).alive,
        },
    decreases k,
{
    let len = eps.len() as int;
    if k == 0 {
    } else if eps[start].alive {
    } else {
        lemma_first_alive_char(eps, succ(len, start), (k - 1) as nat);
        match first_alive(eps, succ(len, start), (k - 1) as nat) {
            Some(i) => {
                assert(i != start);
                assert(cdist(len, succ(len, start), i) == cdist(len, start, i) - 1);
                assert forall|m: int|
                    0 <= m < len && cdist(len, start, m) < cdist(len, start, i) implies !(
                #[trigger] eps[m]).alive by {
                    if m != start {
                        assert(cdist(len, succ(len, start), m) == cdist(len, start, m) - 1);
                    }
                }
            },
            None => {
                assert forall|m: int| 0 <= m < len && cdist(len, start, m) < k implies !(
                #[trigger] eps[m]).alive by {
                    if m != start {
                        assert(cdist(len, succ(len, start), m) == cdist(len, start, m) - 1);
                    }
                }
            },
        }
    }
}

/// The alive count is zero exactly when no endpoint is alive.
pub proof fn lemma_count_alive_zero(eps: Seq<EndpointView>)
    ensures
        (count_alive(eps) == 0) <==> (forall|m: int|
            0 <= m < eps.len() ==> !(#[trigger] eps[m]).alive),
    decreases eps.len(),
{
    if eps.len() > 0 {
        lemma_count_alive_zero(eps.drop_last());
        if count_alive(eps) == 0 {
            assert(count_alive(eps.drop_last()) == 0);
            assert(!eps.last().alive);
            assert forall|m: int| 0 <= m < eps.len() implies !(#[trigger] eps[m]).alive by {
                if m < eps.len() - 1 {
                    assert(eps.drop_last()[m] == eps[m]);
                } else {
                    assert(eps[m] == eps.last());
                }
            }
        }
        if forall|m: int| 0 <= m < eps.len() ==> !(#[trigger] eps[m]).alive {
            assert forall|m: int|
                0 <= m < eps.drop_last().len() implies !(#[trigger] eps.drop_last()[m]).alive by {
                assert(eps.drop_last()[m] == eps[m]);
            }
            assert(count_alive(eps.drop_last()) == 0);
            assert(eps.last() == eps[eps.len() - 1]);
            assert(!eps.last().alive);
            assert(count_alive(eps) == 0);
        }
    }
}

/// The cursor position before call number `n` of a run of selections that
/// began at `start` on an unchanging registry.
pub open spec fn nth_cursor(eps: Seq<EndpointView>, start: int, n: nat) -> int
    decreases n,
{
    if n == 0 {
        start
    } else {
        cursor_after(eps, nth_cursor(eps, start, (n - 1) as nat))
    }
}

/// What call number `n` of that run returns.
pub open spec fn nth_selection(eps: Seq<EndpointView>, start: int, n: nat) -> Option<int> {
    sel_index(eps, nth_cursor(eps, start, n))
}

/// Running one call and then `n` more is running `n + 1` calls.
proof fn lemma_nth_cursor_shift(eps: Seq<EndpointView>, start: int, n: nat)
    ensures
        nth_cursor(eps, start, (n + 1) as nat) == nth_cursor(eps, cursor_after(eps, start), n),
    decreases n,
{
    let start2 = cursor_after(eps, start);
    if n == 0 {
        assert(nth_cursor(eps, start2, 0) == start2);
        assert(nth_cursor(eps, start, 0) == start);
        assert(nth_cursor(eps, start, 1) == cursor_after(eps, nth_cursor(eps, start, 0)));
    } else {
        lemma_nth_cursor_shift(eps, start, (n - 1) as nat);
        assert(nth_cursor(eps, start, (n + 1) as nat) == cursor_after(
            eps,
            nth_cursor(eps, start, n),
        ));
        assert(nth_cursor(eps, start2, n) == cursor_after(eps, nth_cursor(eps, start2, (n - 1) as nat)));
    }
}

/// One selection leaves the cursor within the list.
proof fn lemma_cursor_after_range(eps: Seq<EndpointView>, start: int)
    requires
        0 <= start < eps.len(),
    ensures
        0 <= cursor_after(eps, start) < eps.len(),
{
    lemma_first_alive_char(eps, start, eps.len());
}

/// Any number of selections leaves the cursor within the list.
proof fn lemma_nth_cursor_range(eps: Seq<EndpointView>, start: int, n: nat)
    requires
        0 <= start < eps.len(),
    ensures
        0 <= nth_cursor(eps, start, n) < eps.len(),
    decreases n,
{
    if n > 0 {
        lemma_nth_cursor_range(eps, start, (n - 1) as nat);
        lemma_cursor_after_range(eps, nth_cursor(eps, start, (n - 1) as nat));
    }
}

/// Helper for the fairness law, strengthened for induction: an alive
/// endpoint is returned after at most its cyclic distance from the cursor.
proof fn lemma_coverage_within_distance(eps: Seq<EndpointView>, start: int, j: int)
    requires
        0 <= start < eps.len(),
        0 <= j < eps.len(),
        eps[j].alive,
    ensures
        exists|n: int|
            0 <= n <= cdist(eps.len() as int, start, j) && #[trigger] nth_selection(
                eps,
                start,
                n as nat,
            ) == Some(j),
    decreases cdist(eps.len() as int, start, j),
{
    let len = eps.len() as int;
    lemma_first_alive_char(eps, start, eps.len());
    assert(0 <= cdist(len, start, j) < len);
    assert(sel_index(eps, start) is Some);
    let i = sel_index(eps, start)->Some_0;
    if i == j {
        assert(nth_cursor(eps, start, 0) == start);
        let n0: int = 0;
        assert(nth_selection(eps, start, n0 as nat) == Some(j));
        assert(0 <= n0 <= cdist(len, start, j));
    } else {
        assert(cdist(len, start, j) != cdist(len, start, i));
        assert(cdist(len, start, i) < cdist(len, start, j));
        let start2 = succ(len, i);
        assert(cursor_after(eps, start) == start2);
        assert(0 <= start2 < len);
        assert(cdist(len, start2, j) == cdist(len, start, j) - cdist(len, start, i) - 1);
        lemma_coverage_within_distance(eps, start2, j);
        let n2 = choose|n: int|
            0 <= n <= cdist(len, start2, j) && #[trigger] nth_selection(eps, start2, n as nat)
                == Some(j);
        lemma_nth_cursor_shift(eps, start, n2 as nat);
        assert(nth_cursor(eps, start, (n2 + 1) as nat) == nth_cursor(eps, start2, n2 as nat));
        assert(nth_selection(eps, start2, n2 as nat) == Some(j));
        let n3: int = n2 + 1;
        assert(nth_selection(eps, start, n3 as nat) == sel_index(
            eps,
            nth_cursor(eps, start, n3 as nat),
        ));
        assert(nth_selection(eps, start, n3 as nat) == Some(j));
        assert(0 <= n3 <= cdist(len, start, j));
    }
}

/// Round-robin fairness: on a registry that is not changing, every alive
/// endpoint is returned by at least one of any `len` consecutive
/// `select_next` calls, wherever the cursor stands when the run begins.
pub proof fn lemma_round_robin_coverage(eps: Seq<EndpointView>, start: int, j: int)
    requires
        0 <= start < eps.len(),
        0 <= j < eps.len(),
        eps[j].alive,
    ensures
        exists|n: int|
            0 <= n < eps.len() && #[trigger] nth_selection(eps, start, n as nat) == Some(j),
{
    let len = eps.len() as int;
    lemma_coverage_within_distance(eps, start, j);
    let n = choose|n: int|
        0 <= n <= cdist(len, start, j) && #[trigger] nth_selection(eps, start, n as nat) == Some(
            j,
        );
    assert(0 <= n < eps.len() && nth_selection(eps, start, n as nat) == Some(j));
}

/// When every endpoint is dead, every one of a run of `select_next` calls
/// returns nothing, and the cursor never moves.
pub proof fn lemma_all_dead_selection(eps: Seq<EndpointView>, start: int, n: nat)
    requires
        0 <= start < eps.len(),
        count_alive(eps) == 0,
    ensures
        nth_selection(eps, start, n) is None,
        nth_cursor(eps, start, n) == start,
    decreases n,
{
    lemma_count_alive_zero(eps);
    lemma_first_alive_char(eps, start, eps.len());
    assert(sel_index(eps, start) is None);
    if n > 0 {
        lemma_all_dead_selection(eps, start, (n - 1) as nat);
    }
}

/// An endpoint url all of whose carriers are dead is never selected, on
/// however many consecutive calls.
pub proof fn lemma_dead_url_never_selected(
    eps: Seq<EndpointView>,
    start: int,
    url: Seq<char>,
    n: nat,
)
    requires
        0 <= start < eps.len(),
        forall|m: int| 0 <= m < eps.len() && (#[trigger] eps[m]).url == url ==> !eps[m].alive,
    ensures
        match nth_selection(eps, start, n) {
            Some(i) => 0 <= i < eps.len() && eps[i].url != url,
            None => true,
        },
{
    lemma_nth_cursor_range(eps, start, n);
    lemma_first_alive_char(eps, nth_cursor(eps, start, n), eps.len());
}

/// Turning the liveness of a url off removes that url from every later
/// selection, as long as the url occurs only once in the registry and no
/// write turns it back on: the law behind `mutate(url, false)`.
pub proof fn lemma_mutate_excludes_url(
    eps: Seq<EndpointView>,
    start: int,
    url: Seq<char>,
    n: nat,
)
    requires
        0 <= start < eps.len(),
        find_url(eps, url) is Some,
        forall|m: int|
            0 <= m < eps.len() && (#[trigger] eps[m]).url == url ==> m == find_url(eps, url)->0,
    ensures
        ({
            let i = find_url(eps, url)->0;
            let mutated = eps.update(i, (EndpointView { alive: false, ..eps[i] }));
            match nth_selection(mutated, start, n) {
                Some(m) => 0 <= m < mutated.len() && mutated[m].url != url,
                None => true,
            }
        }),
{
    let i = find_url(eps, url)->0;
    lemma_find_url_in_range(eps, url, 0);
    let mutated = eps.update(i, (EndpointView { alive: false, ..eps[i] }));
    assert forall|m: int|
        0 <= m < mutated.len() && (#[trigger] mutated[m]).url == url implies !mutated[m].alive by {
        if m != i {
            assert(mutated[m] == eps[m]);
        }
    }
    lemma_dead_url_never_selected(mutated, start, url, n);
}

/// A found url position lies within the list and carries the url.
proof fn lemma_find_url_in_range(eps: Seq<EndpointView>, url: Seq<char>, i: int)
    requires
        find_url_from(eps, url, i) is Some,
    ensures
        ({
            let f = find_url_from(eps, url, i)->0;
            i <= f < eps.len() && eps[f].url == url
        }),
    decreases eps.len() - i,
{
    if !(i < 0 || i >= eps.len()) && !(eps[i].url == url) {
        lemma_find_url_in_range(eps, url, i + 1);
    }
}

} // verus!
