//! Finding out beforehand whether items can be checked and written.
//!
//! Checks and writing follow references between definitions, so these have to
//! exist and must not lead round in a circle. Here this is found out without
//! changing anything.
use crate::codegen::{
    CodegenItem, CodegenKind, direct_ok_at, is_nesting, item_ok, lemma_mod_ok, lemma_nesting,
    nesting,
};
use crate::context::{Context, ContextView, EnumMode, Mode, file_name_of};
use crate::modules::{emit_ok, gen_ok, items_ok};
use crate::render::{enum_ok, is_new_type_enum, struct_ok};
use crate::rir::{DefId, Enum, Item, ItemView, Message, TyKind};
use crate::scalar::{Record, depth, is_depth, ready, ready_at, service_slots, slots};
use crate::scalar_lemmas::{
    lemma_depth, lemma_ready_monotone, lemma_service_slot_at, lemma_service_slots_by_value,
};
use crate::text::texts;
use vstd::prelude::*;

verus! {

/// Numbers below `n` that are all different are no more than `n`.
proof fn lemma_distinct_below(s: Seq<DefId>, n: nat)
    requires
        s.no_duplicates(),
        forall|i: int| 0 <= i < s.len() ==> #[trigger] s[i] < n,
    ensures
        s.len() <= n,
{
    let ints = Seq::new(s.len(), |i: int| s[i] as int);
    assert(ints.no_duplicates()) by {
        assert forall|i: int, j: int| 0 <= i < ints.len() && 0 <= j < ints.len() && i != j implies ints[i]
            != ints[j] by {
            assert(s[i] != s[j]);
        }
    }
    ints.unique_seq_to_set();
    vstd::set_lib::lemma_int_range(0, n as int);
    let range = vstd::set_lib::set_int_range(0, n as int);
    assert(ints.to_set().subset_of(range)) by {
        assert forall|x: int| ints.to_set().contains(x) implies range.contains(x) by {
            let i = ints.index_of(x);
            assert(s[i] < n);
        }
    }
    vstd::set_lib::lemma_len_subset(ints.to_set(), range);
}

/// A check that takes `n` steps down leads through `n` items.
proof fn lemma_depth_chain(cx: ContextView, rec: Record, d: DefId, n: nat) -> (chain: Seq<DefId>)
    requires
        is_depth(cx, rec, d, n),
    ensures
        chain.len() == n,
        forall|i: int|
            0 <= i < n ==> is_depth(cx, rec, #[trigger] chain[i], (i + 1) as nat) && chain[i]
                < cx.nodes.len(),
    decreases n,
{
    if n == 0 {
        Seq::empty()
    } else if n == 1 {
        assert(!ready_at(cx, rec, d, 0));
        seq![d]
    } else {
        let less = (n - 1) as nat;
        assert(!ready_at(cx, rec, d, less));
        let i = choose|i: int|
            0 <= i < slots(cx, d).len() && (#[trigger] slots(cx, d)[i]).open() && !ready_at(
                cx,
                rec,
                slots(cx, d)[i].target(),
                (less - 1) as nat,
            );
        let t = slots(cx, d)[i].target();
        assert(ready_at(cx, rec, t, less));
        assert forall|f: nat| f < less implies !ready_at(cx, rec, t, f) by {
            if ready_at(cx, rec, t, f) {
                lemma_ready_monotone(cx, rec, t, f, (less - 1) as nat);
            }
        }
        let chain = lemma_depth_chain(cx, rec, t, less);
        chain.push(d)
    }
}

/// A check takes no more steps down than there are definitions.
proof fn lemma_depth_bounded(cx: ContextView, rec: Record, d: DefId)
    requires
        ready(cx, rec, d),
    ensures
        ready_at(cx, rec, d, cx.nodes.len()),
{
    lemma_depth(cx, rec, d);
    let n = depth(cx, rec, d);
    let chain = lemma_depth_chain(cx, rec, d, n);
    assert(chain.no_duplicates()) by {
        assert forall|i: int, j: int|
            0 <= i < chain.len() && 0 <= j < chain.len() && i != j implies chain[i] != chain[j] by {
            assert(is_depth(cx, rec, chain[i], (i + 1) as nat));
            assert(is_depth(cx, rec, chain[j], (j + 1) as nat));
        }
    }
    lemma_distinct_below(chain, cx.nodes.len());
    lemma_ready_monotone(cx, rec, d, n, cx.nodes.len());
}

/// An item can be checked if all that it leads to can.
pub(crate) proof fn lemma_ready_from_below(cx: ContextView, rec: Record, d: DefId, k: nat) -> (f: nat)
    requires
        k <= slots(cx, d).len(),
        forall|i: int|
            0 <= i < slots(cx, d).len() && (#[trigger] slots(cx, d)[i]).open() ==> ready(
                cx,
                rec,
                slots(cx, d)[i].target(),
            ),
    ensures
        forall|i: int|
            0 <= i < k && (#[trigger] slots(cx, d)[i]).open() ==> ready_at(
                cx,
                rec,
                slots(cx, d)[i].target(),
                f,
            ),
    decreases k,
{
    if k == 0 {
        0
    } else {
        let f = lemma_ready_from_below(cx, rec, d, (k - 1) as nat);
        let last = slots(cx, d)[k - 1];
        if last.open() {
            let g = choose|g: nat| ready_at(cx, rec, last.target(), g);
            assert forall|i: int| 0 <= i < k && (#[trigger] slots(cx, d)[i]).open() implies ready_at(
                cx,
                rec,
                slots(cx, d)[i].target(),
                f + g,
            ) by {
                if i < k - 1 {
                    lemma_ready_monotone(cx, rec, slots(cx, d)[i].target(), f, f + g);
                } else {
                    lemma_ready_monotone(cx, rec, last.target(), g, f + g);
                }
            }
            f + g
        } else {
            f
        }
    }
}

/// Whether an unmarked type among the first `k` places of `d` names `t`.
spec fn named_in(cx: ContextView, d: DefId, k: int, t: DefId) -> bool {
    exists|i: int|
        0 <= i < k && (#[trigger] slots(cx, d)[i]).open() && slots(cx, d)[i].target() == t
}

/// Whether `targets` are the items that the unmarked types among the first `k`
/// places of `d` name.
spec fn leads_to(cx: ContextView, d: DefId, k: int, targets: Seq<DefId>) -> bool {
    &&& forall|i: int|
        0 <= i < k && (#[trigger] slots(cx, d)[i]).open() ==> slots(cx, d)[i].ty.kind is Path
            && targets.contains(slots(cx, d)[i].target())
    &&& forall|j: int| 0 <= j < targets.len() ==> named_in(cx, d, k, #[trigger] targets[j])
}

/// Whether all items that are ticked can be checked.
spec fn ticks_ready(cx: ContextView, ticked: Seq<bool>) -> bool {
    &&& ticked.len() == cx.nodes.len()
    &&& forall|e: DefId| e < ticked.len() && #[trigger] ticked[e as int] ==> ready(cx, Map::empty(), e)
}

proof fn lemma_leads_to_push(cx: ContextView, d: DefId, k: int, targets: Seq<DefId>, t: DefId)
    requires
        leads_to(cx, d, k, targets),
        0 <= k < slots(cx, d).len(),
        slots(cx, d)[k].open(),
        slots(cx, d)[k].ty.kind is Path,
        t == slots(cx, d)[k].target(),
    ensures
        leads_to(cx, d, k + 1, targets.push(t)),
{
    let more = targets.push(t);
    assert forall|i: int| 0 <= i < k + 1 && (#[trigger] slots(cx, d)[i]).open() implies slots(
        cx,
        d,
    )[i].ty.kind is Path && more.contains(slots(cx, d)[i].target()) by {
        if i < k {
            let j = targets.index_of(slots(cx, d)[i].target());
            assert(more[j] == targets[j]);
        } else {
            assert(more[targets.len() as int] == t);
        }
    }
    assert forall|j: int| 0 <= j < more.len() implies named_in(cx, d, k + 1, #[trigger] more[j]) by {
        if j < targets.len() {
            assert(named_in(cx, d, k, targets[j]));
        } else {
            assert(slots(cx, d)[k].target() == more[j]);
        }
    }
}

proof fn lemma_leads_to_skip(cx: ContextView, d: DefId, k: int, targets: Seq<DefId>)
    requires
        leads_to(cx, d, k, targets),
        0 <= k < slots(cx, d).len(),
        !slots(cx, d)[k].open(),
    ensures
        leads_to(cx, d, k + 1, targets),
{
    assert forall|j: int| 0 <= j < targets.len() implies named_in(
        cx,
        d,
        k + 1,
        #[trigger] targets[j],
    ) by {
        assert(named_in(cx, d, k, targets[j]));
    }
}

/// Modules that are nested `n` deep are `n` modules.
proof fn lemma_nesting_chain(cx: ContextView, d: DefId, n: nat) -> (chain: Seq<DefId>)
    requires
        is_nesting(cx, d, n),
    ensures
        chain.len() == n,
        forall|i: int|
            0 <= i < n ==> is_nesting(cx, #[trigger] chain[i], (i + 1) as nat) && chain[i]
                < cx.nodes.len(),
    decreases n,
{
    if n == 0 {
        Seq::empty()
    } else {
        let less = (n - 1) as nat;
        assert(!direct_ok_at(cx, d, less));
        let m = cx.item(d)->0->Mod_0;
        if n == 1 {
            seq![d]
        } else {
            let i = choose|i: int|
                0 <= i < m.items.len() && !direct_ok_at(
                    cx,
                    #[trigger] m.items[i],
                    (less - 1) as nat,
                );
            let t = m.items[i];
            assert(direct_ok_at(cx, t, less));
            assert forall|f: nat| f < less implies !direct_ok_at(cx, t, f) by {
                if direct_ok_at(cx, t, f) {
                    lemma_direct_ok_deeper(cx, t, f, (less - 1) as nat);
                }
            }
            let chain = lemma_nesting_chain(cx, t, less);
            chain.push(d)
        }
    }
}

proof fn lemma_direct_ok_deeper(cx: ContextView, d: DefId, f: nat, g: nat)
    requires
        direct_ok_at(cx, d, f),
        f <= g,
    ensures
        direct_ok_at(cx, d, g),
    decreases f,
{
    if let Some(ItemView::Mod(m)) = cx.item(d) {
        assert forall|i: int| 0 <= i < m.items.len() implies direct_ok_at(
            cx,
            #[trigger] m.items[i],
            (g - 1) as nat,
        ) by {
            lemma_direct_ok_deeper(cx, m.items[i], (f - 1) as nat, (g - 1) as nat);
        }
    }
}

/// Modules are nested no deeper than there are definitions.
proof fn lemma_nesting_bounded(cx: ContextView, d: DefId, f: nat)
    requires
        direct_ok_at(cx, d, f),
    ensures
        direct_ok_at(cx, d, cx.nodes.len()),
{
    lemma_nesting(cx, d, f);
    let n = nesting(cx, d);
    let chain = lemma_nesting_chain(cx, d, n);
    assert(chain.no_duplicates()) by {
        assert forall|i: int, j: int|
            0 <= i < chain.len() && 0 <= j < chain.len() && i != j implies chain[i] != chain[j] by {
            assert(is_nesting(cx, chain[i], (i + 1) as nat));
            assert(is_nesting(cx, chain[j], (j + 1) as nat));
        }
    }
    lemma_distinct_below(chain, cx.nodes.len());
    lemma_direct_ok_deeper(cx, d, n, cx.nodes.len());
}

/// Whether the item can be written where it stands.
pub open spec fn direct_ok(cx: ContextView, d: DefId) -> bool {
    exists|fuel: nat| direct_ok_at(cx, d, fuel)
}

/// Items that can all be written can be so within a common depth.
pub(crate) proof fn lemma_common_depth(cx: ContextView, ids: Seq<DefId>) -> (f: nat)
    requires
        forall|i: int| 0 <= i < ids.len() ==> direct_ok(cx, #[trigger] ids[i]),
    ensures
        forall|i: int| 0 <= i < ids.len() ==> direct_ok_at(cx, #[trigger] ids[i], f),
    decreases ids.len(),
{
    if ids.len() == 0 {
        0
    } else {
        let less = ids.drop_last();
        assert forall|i: int| 0 <= i < less.len() implies direct_ok(cx, #[trigger] less[i]) by {
            assert(direct_ok(cx, ids[i]));
        }
        let f = lemma_common_depth(cx, less);
        let last = ids[ids.len() - 1];
        let g = choose|g: nat| direct_ok_at(cx, last, g);
        assert forall|i: int| 0 <= i < ids.len() implies direct_ok_at(
            cx,
            #[trigger] ids[i],
            f + g,
        ) by {
            if i < less.len() {
                assert(direct_ok_at(cx, less[i], f));
                lemma_direct_ok_deeper(cx, ids[i], f, f + g);
            } else {
                lemma_direct_ok_deeper(cx, last, g, f + g);
            }
        }
        f + g
    }
}

/// Whether all items that are ticked can be written.
spec fn ticks_ok(cx: ContextView, ticked: Seq<bool>) -> bool {
    &&& ticked.len() == cx.nodes.len()
    &&& forall|e: DefId| e < ticked.len() && #[trigger] ticked[e as int] ==> direct_ok(cx, e)
}

impl Context {
    /// The items that the unmarked types in an item name; `None` if one of these
    /// types names none.
    fn targets(&self, d: DefId) -> (targets: Option<Vec<DefId>>)
        requires
            self@.item(d) is Some,
        ensures
            match targets {
                Some(targets) => leads_to(self@, d, slots(self@, d).len() as int, targets@),
                None => exists|i: int|
                    0 <= i < slots(self@, d).len() && (#[trigger] slots(self@, d)[i]).open()
                        && !(slots(self@, d)[i].ty.kind is Path),
            },
    {
        let ghost cx = self@;
        let mut targets: Vec<DefId> = Vec::new();
        if let Some(Item::Message(m)) = self.item(d) {
            let n: usize = m.fields.len();
            let mut i: usize = 0;
            while i < n
                invariant
                    cx == self@,
                    cx.item(d) matches Some(ItemView::Message(m)) && m.fields.len() == n,
                    i <= n,
                    leads_to(cx, d, i as int, targets@),
                decreases n - i,
            {
                let (by_ptr, mark, kind) = self.message_slot(d, i);
                assert(slots(cx, d)[i as int].open() == (!by_ptr && mark is None));
                if !by_ptr && mark.is_none() {
                    match kind {
                        TyKind::Path(path) => {
                            proof {
                                lemma_leads_to_push(cx, d, i as int, targets@, path.did);
                            }
                            targets.push(path.did);
                        },
                        TyKind::Builtin => {
                            return None;
                        },
                    }
                } else {
                    proof {
                        lemma_leads_to_skip(cx, d, i as int, targets@);
                    }
                }
                i += 1;
            }
        } else if let Some(Item::Service(s)) = self.item(d) {
            let ghost methods = cx.item(d)->0->Service_0.methods;
            let n: usize = s.methods.len();
            let mut i: usize = 0;
            assert(methods.take(0) =~= Seq::empty());
            while i < n
                invariant
                    cx == self@,
                    cx.item(d) matches Some(ItemView::Service(s)) && s.methods == methods,
                    methods.len() == n,
                    i <= n,
                    leads_to(
                        cx,
                        d,
                        service_slots(methods.take(i as int)).len() as int,
                        targets@,
                    ),
                decreases n - i,
            {
                let ghost base = service_slots(methods.take(i as int)).len() as int;
                let args = self.arg_count(d, i);
                let mut a: usize = 0;
                let mut done = false;
                while !done
                    invariant
                        cx == self@,
                        cx.item(d) matches Some(ItemView::Service(s)) && s.methods == methods,
                        methods.len() == n,
                        i < n,
                        args == methods[i as int].args.len(),
                        base == service_slots(methods.take(i as int)).len(),
                        a <= args,
                        leads_to(
                            cx,
                            d,
                            base + a + if done {
                                1int
                            } else {
                                0int
                            },
                            targets@,
                        ),
                        done ==> a == args,
                    decreases args - a, if done { 0int } else { 1int },
                {
                    let (mark, kind) = self.service_slot(d, i, a);
                    proof {
                        lemma_service_slot_at(methods, i as int, a as int);
                        lemma_service_slots_by_value(methods);
                    }
                    assert(slots(cx, d)[base + a].open() == (mark is None));
                    if mark.is_none() {
                        match kind {
                            TyKind::Path(path) => {
                                proof {
                                    lemma_leads_to_push(cx, d, base + a, targets@, path.did);
                                }
                                targets.push(path.did);
                            },
                            TyKind::Builtin => {
                                return None;
                            },
                        }
                    } else {
                        proof {
                            lemma_leads_to_skip(cx, d, base + a, targets@);
                        }
                    }
                    if a < args {
                        a += 1;
                    } else {
                        done = true;
                    }
                }
                assert(methods.take(i + 1).drop_last() =~= methods.take(i as int));
                i += 1;
            }
            assert(methods.take(n as int) =~= methods);
        }
        Some(targets)
    }

    fn probe(&self, d: DefId, ticked: &mut Vec<bool>, fuel: usize) -> (b: bool)
        requires
            ticks_ready(self@, old(ticked)@),
        ensures
            ticks_ready(self@, final(ticked)@),
            b ==> ready(self@, Map::empty(), d),
            ready_at(self@, Map::empty(), d, fuel as nat) ==> b,
        decreases fuel,
    {
        let ghost cx = self@;
        let ghost rec: Record = Map::empty();
        if d as usize >= self.nodes.len() || self.item(d).is_none() {
            return false;
        }
        if ticked[d as usize] {
            return true;
        }
        if fuel == 0 {
            return false;
        }
        let targets = match self.targets(d) {
            Some(targets) => targets,
            None => {
                return false;
            },
        };
        let mut j: usize = 0;
        while j < targets.len()
            invariant
                cx == self@,
                rec == Map::<DefId, bool>::empty(),
                fuel > 0,
                leads_to(cx, d, slots(cx, d).len() as int, targets@),
                ticks_ready(cx, ticked@),
                forall|k: int| 0 <= k < j ==> ready(cx, rec, #[trigger] targets@[k]),
            decreases targets@.len() - j,
        {
            let t = targets[j];
            if !self.probe(t, ticked, fuel - 1) {
                assert(named_in(cx, d, slots(cx, d).len() as int, targets@[j as int]));
                return false;
            }
            j += 1;
        }
        proof {
            assert forall|i: int|
                0 <= i < slots(cx, d).len() && (#[trigger] slots(cx, d)[i]).open() implies ready(
                cx,
                rec,
                slots(cx, d)[i].target(),
            ) by {
                let k = targets@.index_of(slots(cx, d)[i].target());
                assert(ready(cx, rec, targets@[k]));
            }
            let f = lemma_ready_from_below(cx, rec, d, slots(cx, d).len());
            let n: nat = f + 1;
            assert((n - 1) as nat == f);
            assert(ready_at(cx, rec, d, n));
        }
        ticked.set(d as usize, true);
        true
    }

    fn no_ticks(&self) -> (ticked: Vec<bool>)
        ensures
            ticked@.len() == self@.nodes.len(),
            forall|i: int| 0 <= i < ticked@.len() ==> !#[trigger] ticked@[i],
    {
        let mut ticked: Vec<bool> = Vec::new();
        let mut i: usize = 0;
        while i < self.nodes.len()
            invariant
                i <= self.nodes@.len(),
                ticked@.len() == i,
                forall|j: int| 0 <= j < i ==> !#[trigger] ticked@[j],
            decreases self.nodes@.len() - i,
        {
            ticked.push(false);
            i += 1;
        }
        ticked
    }

    /// Whether an item can be checked, with nothing settled beforehand.
    pub fn can_check(&self, d: DefId) -> (b: bool)
        ensures
            b == ready(self@, Map::empty(), d),
    {
        let mut ticked = self.no_ticks();
        proof {
            if ready(self@, Map::empty(), d) {
                lemma_depth_bounded(self@, Map::empty(), d);
            }
        }
        self.probe(d, &mut ticked, self.nodes.len())
    }
}

impl Context {
    fn knows(&self, did: DefId) -> (b: bool)
        ensures
            b == self@.knows(did),
    {
        (did as usize) < self.nodes.len()
    }

    /// Whether a struct can be written.
    pub fn can_write_struct(&self, did: DefId, s: &Message) -> (b: bool)
        ensures
            b == struct_ok(self@, did, s@),
    {
        let mut i: usize = 0;
        while i < s.fields.len()
            invariant
                i <= s.fields@.len(),
                forall|j: int| 0 <= j < i ==> self@.knows((#[trigger] s@.fields[j]).did),
            decreases s.fields@.len() - i,
        {
            assert(s@.fields[i as int] == s.fields@[i as int]@);
            if !self.knows(s.fields[i].did) {
                return false;
            }
            i += 1;
        }
        self.knows(did)
    }

    /// Whether an enum can be written, in the form that its tags ask for.
    pub fn can_write_enum(&self, did: DefId, e: &Enum) -> (b: bool)
        ensures
            b == enum_ok(self@, did, e@),
    {
        let new_type = match self.node_tags(did) {
            Some(tags) => match tags.enum_mode {
                Some(EnumMode::NewType) => true,
                _ => false,
            },
            None => {
                return false;
            },
        };
        let with_repr = e.repr.is_some();
        let mut i: usize = 0;
        while i < e.variants.len()
            invariant
                i <= e.variants@.len(),
                new_type == is_new_type_enum(self@, did),
                with_repr == (e@.repr is Some),
                forall|j: int|
                    0 <= j < i ==> {
                        &&& self@.knows((#[trigger] e@.variants[j]).did)
                        &&& match e@.variants[j].discr {
                            Some(discr) => new_type || with_repr && isize::MIN <= discr
                                <= isize::MAX,
                            None => !new_type,
                        }
                    },
            decreases e.variants@.len() - i,
        {
            let v = &e.variants[i];
            assert(e@.variants[i as int] == v@);
            let discr_ok = match v.discr {
                Some(discr) => new_type || with_repr && isize::MIN as i64 <= discr && discr
                    <= isize::MAX as i64,
                None => !new_type,
            };
            if !self.knows(v.did) || !discr_ok {
                return false;
            }
            i += 1;
        }
        self.knows(did) && (!new_type || with_repr)
    }

    fn probe_write(&self, d: DefId, ticked: &mut Vec<bool>, fuel: usize) -> (b: bool)
        requires
            ticks_ok(self@, old(ticked)@),
        ensures
            ticks_ok(self@, final(ticked)@),
            b ==> direct_ok(self@, d),
            direct_ok_at(self@, d, fuel as nat) ==> b,
        decreases fuel,
    {
        let ghost cx = self@;
        let item = match self.item(d) {
            Some(item) => item,
            None => {
                return false;
            },
        };
        if ticked[d as usize] {
            return true;
        }
        let b = match item {
            Item::Message(s) => self.can_write_struct(d, s),
            Item::Enum(e) => self.can_write_enum(d, e),
            Item::Service(_) => true,
            Item::NewType(_) => true,
            Item::Const(c) => self.def_lit(
                self.rust_name(d),
                &c.lit,
                self.codegen_ty(d),
            ).is_some(),
            Item::Mod(m) => {
                if fuel == 0 {
                    return false;
                }
                let mut j: usize = 0;
                while j < m.items.len()
                    invariant
                        cx == self@,
                        fuel > 0,
                        cx.item(d) == Some(ItemView::Mod(m@)),
                        j <= m.items@.len(),
                        ticks_ok(cx, ticked@),
                        forall|k: int| 0 <= k < j ==> direct_ok(cx, #[trigger] m.items@[k]),
                    decreases m.items@.len() - j,
                {
                    if !self.probe_write(m.items[j], ticked, fuel - 1) {
                        proof {
                            if direct_ok_at(cx, d, fuel as nat) {
                                lemma_mod_ok(cx, d, fuel as nat);
                                assert(direct_ok_at(cx, m@.items[j as int], (fuel - 1) as nat));
                            }
                        }
                        return false;
                    }
                    j += 1;
                }
                proof {
                    let f = lemma_common_depth(cx, m@.items);
                    let n: nat = f + 1;
                    assert((n - 1) as nat == f);
                    assert(direct_ok_at(cx, d, n));
                }
                true
            },
        };
        if b {
            assert(direct_ok(cx, d)) by {
                if !(item is Mod) {
                    assert(direct_ok_at(cx, d, 0));
                }
            }
            ticked.set(d as usize, true);
        }
        b
    }

    /// Whether an item can be written.
    pub fn can_write(&self, item: CodegenItem) -> (b: bool)
        ensures
            b == item_ok(self@, item),
    {
        match item.kind {
            CodegenKind::Direct => {
                let mut ticked = self.no_ticks();
                proof {
                    if item_ok(self@, item) {
                        let f = choose|f: nat| direct_ok_at(self@, item.def_id, f);
                        lemma_nesting_bounded(self@, item.def_id, f);
                    }
                }
                self.probe_write(item.def_id, &mut ticked, self.nodes.len())
            },
            CodegenKind::RePub => self.knows(item.def_id),
        }
    }

    /// Whether an item can be checked and written.
    pub fn can_emit(&self, item: CodegenItem) -> (b: bool)
        ensures
            b == emit_ok(self@, item),
    {
        self.can_write(item) && match item.kind {
            CodegenKind::Direct => self.can_check(item.def_id),
            CodegenKind::RePub => true,
        }
    }

    /// Whether a definition has a module to be written to.
    pub fn can_place(&self, did: DefId) -> (b: bool)
        ensures
            b == self@.has_mod_key(did),
    {
        if !self.knows(did) {
            return false;
        }
        let path = self.mod_path(did);
        assert(texts(path@).len() == path@.len());
        match &self.mode {
            Mode::Workspace(_) => path.len() > 0,
            Mode::SingleFile { .. } => true,
        }
    }

    /// Whether the items can all be placed, checked and written.
    pub fn can_write_items(&self, items: &Vec<CodegenItem>) -> (b: bool)
        ensures
            b == items_ok(self@, items@),
    {
        let mut i: usize = 0;
        while i < items.len()
            invariant
                i <= items@.len(),
                forall|j: int|
                    0 <= j < i ==> self@.has_mod_key((#[trigger] items@[j]).def_id) && emit_ok(
                        self@,
                        items@[j],
                    ),
            decreases items@.len() - i,
        {
            if !self.can_place(items[i].def_id) || !self.can_emit(items[i]) {
                return false;
            }
            i += 1;
        }
        true
    }

    /// Whether the output can be generated.
    pub fn can_gen(&self) -> (b: bool)
        ensures
            b == gen_ok(self@),
    {
        match &self.mode {
            Mode::Workspace(_) => true,
            Mode::SingleFile { file_path } => file_name_of(file_path).is_some()
                && self.can_write_items(&self.items_to_generate()),
        }
    }
}

} // verus!
