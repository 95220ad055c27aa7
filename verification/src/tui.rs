//! The interactive selection: which hits are ticked, where the cursor is, and what each key does.

use vstd::prelude::*;

use crate::scanner::{is_picked, total, Hit};

verus! {

/// A key the user pressed.
#[derive(Debug, Clone, Copy, PartialEq, Eq)]
pub enum Key {
    Char(char),
    Up,
    Down,
    Enter,
    Esc,
    /// Any other key.
    Other,
}

/// What a key asks for.
#[derive(Debug, Clone, Copy, PartialEq, Eq)]
pub enum Command {
    /// `q` or `Esc`: leave without touching anything.
    Quit,
    /// `down` or `j`: move the cursor down.
    Down,
    /// `up` or `k`: move the cursor up.
    Up,
    /// `space`: toggle the hit under the cursor.
    Toggle,
    /// `a`: tick all, or none when all are ticked.
    ToggleAll,
    /// `enter`: clean the ticked hits.
    Clean,
    /// Any other key does nothing.
    Ignore,
}

/// What the user decided when they left the UI.
pub enum Exit {
    /// Clean these (already filtered to picked).
    Clean(Vec<Hit>),
    /// Leave without touching anything.
    Quit,
}

/// The UI after a key: still running, or left with a decision.
pub enum Step {
    Stay(App),
    Leave(Exit),
}

/// The command of each key.
pub open spec fn command_of(key: Key) -> Command {
    match key {
        Key::Char(c) => if c == 'q' {
            Command::Quit
        } else if c == 'j' {
            Command::Down
        } else if c == 'k' {
            Command::Up
        } else if c == ' ' {
            Command::Toggle
        } else if c == 'a' {
            Command::ToggleAll
        } else {
            Command::Ignore
        },
        Key::Esc => Command::Quit,
        Key::Down => Command::Down,
        Key::Up => Command::Up,
        Key::Enter => Command::Clean,
        Key::Other => Command::Ignore,
    }
}

/// The command of a key.
pub fn command(key: Key) -> (c: Command)
    ensures
        c == command_of(key),
        (c == Command::Quit) <==> (key == Key::Char('q') || key == Key::Esc),
        (c == Command::Down) <==> (key == Key::Char('j') || key == Key::Down),
        (c == Command::Up) <==> (key == Key::Char('k') || key == Key::Up),
        (c == Command::Toggle) <==> key == Key::Char(' '),
        (c == Command::ToggleAll) <==> key == Key::Char('a'),
        (c == Command::Clean) <==> key == Key::Enter,
{
    match key {
        Key::Char(c) => if c == 'q' {
            Command::Quit
        } else if c == 'j' {
            Command::Down
        } else if c == 'k' {
            Command::Up
        } else if c == ' ' {
            Command::Toggle
        } else if c == 'a' {
            Command::ToggleAll
        } else {
            Command::Ignore
        },
        Key::Esc => Command::Quit,
        Key::Down => Command::Down,
        Key::Up => Command::Up,
        Key::Enter => Command::Clean,
        Key::Other => Command::Ignore,
    }
}

/// The position a selection stands for: the selected row, or the first.
pub open spec fn cursor_of(selected: Option<usize>) -> int {
    match selected {
        Some(i) => i as int,
        None => 0,
    }
}

/// The selection after moving by `delta` rows over `len` rows, wrapping around both ends.
/// With no rows nothing moves.
pub open spec fn moved(len: nat, selected: Option<usize>, delta: int) -> Option<usize> {
    if len == 0 {
        selected
    } else {
        Some(((cursor_of(selected) + delta) % (len as int)) as usize)
    }
}

/// `h` with its tick set to `picked`.
pub open spec fn with_pick(h: Hit, picked: bool) -> Hit {
    Hit { path: h.path, kind: h.kind, size: h.size, picked: picked }
}

/// The hits after toggling the one at row `i` (nothing when there is no such row).
pub open spec fn flipped(hits: Seq<Hit>, i: int) -> Seq<Hit> {
    if 0 <= i < hits.len() {
        hits.update(i, with_pick(hits[i], !hits[i].picked))
    } else {
        hits
    }
}

/// `after` is `before` with the tick of row `c` turned over: every other row is unchanged, and
/// row `c` (when there is such a row) keeps its path, kind and size with the opposite tick.
pub open spec fn toggles_row(before: Seq<Hit>, after: Seq<Hit>, c: int) -> bool {
    &&& after.len() == before.len()
    &&& forall|j: int| 0 <= j < before.len() && j != c ==> #[trigger] after[j] == before[j]
    &&& 0 <= c < before.len() ==> {
        &&& after[c].picked == !before[c].picked
        &&& after[c].path == before[c].path
        &&& after[c].kind == before[c].kind
        &&& after[c].size == before[c].size
    }
}

/// `after` is `before` with every tick set to one value: ticked when some row of `before` was
/// unticked, unticked when all were ticked; paths, kinds and sizes are kept.
pub open spec fn sets_all_ticks(before: Seq<Hit>, after: Seq<Hit>) -> bool {
    &&& after.len() == before.len()
    &&& forall|k: int| 0 <= k < before.len() ==> {
        &&& (#[trigger] after[k]).picked == (exists|j: int| 0 <= j < before.len() && !before[j].picked)
        &&& after[k].path == before[k].path
        &&& after[k].kind == before[k].kind
        &&& after[k].size == before[k].size
    }
}

/// Whether some hit is not ticked.
pub open spec fn any_unpicked(hits: Seq<Hit>) -> bool {
    exists|k: int| 0 <= k < hits.len() && !(#[trigger] hits[k]).picked
}

/// The hits after "all / none": all ticked when some were not, else none ticked.
pub open spec fn all_set(hits: Seq<Hit>) -> Seq<Hit> {
    Seq::new(hits.len(), |k: int| with_pick(hits[k], any_unpicked(hits)))
}

/// In-memory state for the running UI.
pub struct App {
    /// The hits, in display order.
    pub hits: Vec<Hit>,
    /// The row under the cursor; `None` only when there are no rows.
    pub selected: Option<usize>,
}

impl App {
    /// A consistent state: the selection is a row when there are rows and none otherwise, and
    /// the sizes can be added up.
    pub open spec fn wf(&self) -> bool {
        &&& (self.selected is None <==> self.hits@.len() == 0)
        &&& (self.selected matches Some(i) ==> i < self.hits@.len())
        &&& self.hits@.len() <= isize::MAX
        &&& total(self.hits@) <= u64::MAX
    }

    /// The UI over `hits`, with the cursor on the first row.
    pub fn new(hits: Vec<Hit>) -> (app: App)
        requires
            hits@.len() <= isize::MAX,
            total(hits@) <= u64::MAX,
        ensures
            app.wf(),
            app.hits@ == hits@,
            app.selected == if hits@.len() > 0 { Some(0usize) } else { None },
    {
        let selected = if hits.len() > 0 { Some(0) } else { None };
        App { hits, selected }
    }

    /// The row under the cursor.
    pub fn cursor(&self) -> (c: usize)
        ensures
            c == cursor_of(self.selected),
    {
        match self.selected {
            Some(i) => i,
            None => 0,
        }
    }

    /// Moves the cursor by `delta` rows, wrapping around at both ends.
    pub fn move_by(&mut self, delta: isize)
        requires
            old(self).wf(),
            isize::MIN <= cursor_of(old(self).selected) + delta <= isize::MAX,
        ensures
            final(self).wf(),
            final(self).hits@ == old(self).hits@,
            final(self).selected == moved(old(self).hits@.len(), old(self).selected, delta as int),
            old(self).hits@.len() > 0 ==> (final(self).selected matches Some(j) && j < old(self).hits@.len()
                && (j - cursor_of(old(self).selected) - delta) % (old(self).hits@.len() as int) == 0),
    {
        if self.hits.len() == 0 {
            return;
        }
        let len = self.hits.len();
        let c = self.cursor();
        let next: usize = if delta >= 0 {
            let d = (delta as usize) % len;
            proof {
                let q = (delta as int) / (len as int);
                vstd::arithmetic::div_mod::lemma_fundamental_div_mod(delta as int, len as int);
                vstd::arithmetic::div_mod::lemma_mod_multiples_vanish(q, c + d, len as int);
                assert(c + delta == len * q + (c + d));
            }
            (c + d) % len
        } else {
            let m: u128 = (0 - (delta as i128)) as u128;
            let d = (m % (len as u128)) as usize;
            proof {
                let q = (m as int) / (len as int);
                vstd::arithmetic::div_mod::lemma_fundamental_div_mod(m as int, len as int);
                vstd::arithmetic::div_mod::lemma_mod_multiples_vanish(-(q + 1), c + len - d, len as int);
                assert(c + delta == len * (-(q + 1)) + (c + len - d)) by (nonlinear_arith)
                    requires
                        m as int == len * q + d,
                        m as int == -delta;
            }
            (c + len - d) % len
        };
        self.selected = Some(next);
        proof {
            lemma_wraps_to_same_row((c as int) + (delta as int), len as int);
        }
    }

    /// Toggles the hit under the cursor.
    pub fn toggle(&mut self)
        requires
            old(self).wf(),
        ensures
            final(self).wf(),
            final(self).selected == old(self).selected,
            final(self).hits@ == flipped(old(self).hits@, cursor_of(old(self).selected)),
            toggles_row(old(self).hits@, final(self).hits@, cursor_of(old(self).selected)),
            old(self).hits@.len() > 0 ==> 0 <= cursor_of(old(self).selected) < old(self).hits@.len(),
    {
        let i = self.cursor();
        if i < self.hits.len() {
            let ghost before = self.hits@;
            let mut hit = self.hits.remove(i);
            hit.picked = !hit.picked;
            self.hits.insert(i, hit);
            proof {
                assert(self.hits@ =~= flipped(before, i as int));
                lemma_same_sizes_same_total(before, self.hits@);
            }
        }
    }

    /// Ticks every hit when some are not ticked, and unticks them all otherwise.
    pub fn toggle_all(&mut self)
        requires
            old(self).wf(),
        ensures
            final(self).wf(),
            final(self).selected == old(self).selected,
            final(self).hits@ == all_set(old(self).hits@),
            sets_all_ticks(old(self).hits@, final(self).hits@),
    {
        let ghost before = self.hits@;
        let ghost sel = self.selected;
        let n = self.hits.len();
        let mut any = false;
        let mut k: usize = 0;
        while k < n
            invariant
                n == self.hits@.len(),
                self.hits@ == before,
                self.selected == sel,
                k <= n,
                any == exists|j: int| 0 <= j < k && !(#[trigger] before[j]).picked,
            decreases n - k,
        {
            if !self.hits[k].picked {
                any = true;
            }
            k = k + 1;
        }
        assert(any == any_unpicked(before));
        let mut i: usize = 0;
        while i < n
            invariant
                n == self.hits@.len(),
                n == before.len(),
                self.selected == sel,
                i <= n,
                any == any_unpicked(before),
                forall|j: int| 0 <= j < i ==> #[trigger] self.hits@[j] == with_pick(before[j], any),
                forall|j: int| i <= j < n ==> #[trigger] self.hits@[j] == before[j],
            decreases n - i,
        {
            let mut hit = self.hits.remove(i);
            hit.picked = any;
            self.hits.insert(i, hit);
            i = i + 1;
        }
        proof {
            assert(self.hits@ =~= all_set(before));
            lemma_same_sizes_same_total(before, self.hits@);
        }
    }

    /// Bytes across the ticked hits.
    pub fn picked_size(&self) -> (s: u64)
        requires
            self.wf(),
        ensures
            s == total(self.hits@.filter(is_picked())),
    {
        let n = self.hits.len();
        let mut s: u64 = 0;
        let mut i: usize = 0;
        while i < n
            invariant
                n == self.hits@.len(),
                i <= n,
                s == total(self.hits@.take(i as int).filter(is_picked())),
                total(self.hits@) <= u64::MAX,
            decreases n - i,
        {
            let ghost pre = self.hits@.take(i as int);
            proof {
                assert(self.hits@.take(i + 1) =~= pre.push(self.hits@[i as int]));
                pre.lemma_filter_push(self.hits@[i as int], is_picked());
                picked_size_at_most_total(self.hits@.take(i + 1));
                crate::scanner::lemma_total_prefix(self.hits@, i + 1);
            }
            if self.hits[i].picked {
                proof {
                    assert(pre.push(self.hits@[i as int]).filter(is_picked()).drop_last() =~= pre.filter(is_picked()));
                }
                s = s + self.hits[i].size;
            }
            i = i + 1;
        }
        proof {
            assert(self.hits@.take(n as int) =~= self.hits@);
        }
        s
    }

    /// Bytes across every hit.
    pub fn total_size(&self) -> (s: u64)
        requires
            self.wf(),
        ensures
            s == total(self.hits@),
    {
        crate::scanner::total_size_of(self.hits.as_slice())
    }

    /// How many hits are ticked.
    pub fn picked_count(&self) -> (c: usize)
        ensures
            c == self.hits@.filter(is_picked()).len(),
    {
        let n = self.hits.len();
        let mut c: usize = 0;
        let mut i: usize = 0;
        while i < n
            invariant
                n == self.hits@.len(),
                i <= n,
                c == self.hits@.take(i as int).filter(is_picked()).len(),
                c <= i,
            decreases n - i,
        {
            let ghost pre = self.hits@.take(i as int);
            proof {
                assert(self.hits@.take(i + 1) =~= pre.push(self.hits@[i as int]));
                pre.lemma_filter_push(self.hits@[i as int], is_picked());
            }
            if self.hits[i].picked {
                c = c + 1;
            }
            i = i + 1;
        }
        proof {
            assert(self.hits@.take(n as int) =~= self.hits@);
        }
        c
    }
}

/// `x` wrapped onto `l` rows is a row, and differs from `x` by a whole number of turns.
proof fn lemma_wraps_to_same_row(x: int, l: int)
    requires
        l > 0,
    ensures
        0 <= x % l < l,
        (x % l - x) % l == 0,
{
    vstd::arithmetic::div_mod::lemma_fundamental_div_mod(x, l);
    let q = x / l;
    assert(x % l - x == (-q) * l) by (nonlinear_arith)
        requires x == l * q + x % l;
    vstd::arithmetic::div_mod::lemma_mod_multiples_basic(-q, l);
}

/// Two lists of hits with the same sizes have the same total.
proof fn lemma_same_sizes_same_total(a: Seq<Hit>, b: Seq<Hit>)
    requires
        a.len() == b.len(),
        forall|k: int| 0 <= k < a.len() ==> #[trigger] a[k].size == b[k].size,
    ensures
        total(a) == total(b),
    decreases a.len(),
{
    if a.len() > 0 {
        lemma_same_sizes_same_total(a.drop_last(), b.drop_last());
    }
}

/// The ticked hits never add up to more than all of them.
pub proof fn picked_size_at_most_total(hits: Seq<Hit>)
    ensures
        total(hits.filter(is_picked())) <= total(hits),
{
    crate::scanner::lemma_filtered_total_le(hits, is_picked());
}

/// The ticked hits of `hits`, in order, moved out of it.
pub fn take_picked(hits: Vec<Hit>) -> (picked: Vec<Hit>)
    ensures
        picked@ == hits@.filter(is_picked()),
{
    let mut rest = hits;
    let mut out: Vec<Hit> = Vec::new();
    proof {
        assert(hits@.skip(hits@.len() as int) =~= Seq::<Hit>::empty());
        reveal_with_fuel(Seq::filter, 1);
        assert(out@ =~= Seq::<Hit>::empty().filter(is_picked()));
    }
    while rest.len() > 0
        invariant
            rest@ == hits@.take(rest@.len() as int),
            rest@.len() <= hits@.len(),
            out@ == hits@.skip(rest@.len() as int).filter(is_picked()),
        decreases rest@.len(),
    {
        let ghost i = rest@.len() - 1;
        let h = rest.pop().unwrap();
        proof {
            assert(rest@ =~= hits@.take(i));
            assert(hits@.skip(i) =~= seq![h] + hits@.skip(i + 1));
            hits@.skip(i + 1).lemma_filter_prepend(h, is_picked());
        }
        if h.picked {
            out.insert(0, h);
            proof {
                assert(out@ =~= seq![h] + hits@.skip(i + 1).filter(is_picked()));
            }
        } else {
            proof {
                assert(out@ =~= Seq::<Hit>::empty() + hits@.skip(i + 1).filter(is_picked()));
            }
        }
    }
    proof {
        assert(hits@.skip(0) =~= hits@);
    }
    out
}

impl App {
    /// Handles one key press: `q`/`Esc` leave without touching anything, `down`/`j` and
    /// `up`/`k` move, `space` toggles one, `a` toggles all or none, `enter` leaves to clean the
    /// ticked hits; any other key changes nothing.
    pub fn on_key(self, key: Key) -> (step: Step)
        requires
            self.wf(),
        ensures
            match command_of(key) {
                Command::Quit => step matches Step::Leave(Exit::Quit),
                Command::Clean => step matches Step::Leave(Exit::Clean(picked))
                    && picked@ == self.hits@.filter(is_picked()),
                Command::Down => step matches Step::Stay(app) && app.wf() && app.hits@ == self.hits@
                    && app.selected == moved(self.hits@.len(), self.selected, 1),
                Command::Up => step matches Step::Stay(app) && app.wf() && app.hits@ == self.hits@
                    && app.selected == moved(self.hits@.len(), self.selected, -1),
                Command::Toggle => step matches Step::Stay(app) && app.wf()
                    && app.hits@ == flipped(self.hits@, cursor_of(self.selected))
                    && toggles_row(self.hits@, app.hits@, cursor_of(self.selected))
                    && app.selected == self.selected,
                Command::ToggleAll => step matches Step::Stay(app) && app.wf()
                    && app.hits@ == all_set(self.hits@) && sets_all_ticks(self.hits@, app.hits@)
                    && app.selected == self.selected,
                Command::Ignore => step matches Step::Stay(app) && app.hits@ == self.hits@
                    && app.selected == self.selected && app.wf(),
            },
    {
        let mut app = self;
        match command(key) {
            Command::Quit => Step::Leave(Exit::Quit),
            Command::Clean => Step::Leave(Exit::Clean(take_picked(app.hits))),
            Command::Down => {
                app.move_by(1);
                Step::Stay(app)
            },
            Command::Up => {
                app.move_by(-1);
                Step::Stay(app)
            },
            Command::Toggle => {
                app.toggle();
                Step::Stay(app)
            },
            Command::ToggleAll => {
                app.toggle_all();
                Step::Stay(app)
            },
            Command::Ignore => Step::Stay(app),
        }
    }
}

/// Pressing `space` twice on the same row leaves every tick as it was.
pub proof fn toggle_twice_restores(hits: Seq<Hit>, i: int)
    ensures
        flipped(flipped(hits, i), i) == hits,
{
    if 0 <= i < hits.len() {
        assert(flipped(flipped(hits, i), i) =~= hits);
    }
}

/// "All / none": after `a` every hit is ticked when some were not, and none is ticked when all
/// were; so from a list with an unticked hit, a second `a` unticks them all.
pub proof fn all_or_none(hits: Seq<Hit>)
    ensures
        all_set(hits).len() == hits.len(),
        forall|k: int| 0 <= k < hits.len() ==> (#[trigger] all_set(hits)[k]).picked == any_unpicked(hits),
        forall|k: int| 0 <= k < hits.len() ==> #[trigger] all_set(hits)[k].size == hits[k].size,
        any_unpicked(hits) ==> !any_unpicked(all_set(hits)),
        any_unpicked(hits) ==> forall|k: int| 0 <= k < hits.len() ==> !(#[trigger] all_set(all_set(hits))[k]).picked,
{
    if any_unpicked(hits) {
        let once = all_set(hits);
        assert forall|k: int| 0 <= k < once.len() implies (#[trigger] once[k]).picked by {}
        assert(!any_unpicked(once));
    }
}

/// Moving the cursor down and then up puts it back on the same row; the cursor always stays on
/// a row.
pub proof fn down_then_up_restores(len: nat, selected: Option<usize>)
    requires
        len > 0,
        len <= isize::MAX,
        selected matches Some(i) && i < len,
    ensures
        moved(len, selected, 1) matches Some(j) && j < len,
        moved(len, moved(len, selected, 1), -1) == selected,
{
    let i = cursor_of(selected);
    let l = len as int;
    let j = (i + 1) % l;
    if i + 1 < l {
        vstd::arithmetic::div_mod::lemma_small_mod((i + 1) as nat, len);
        vstd::arithmetic::div_mod::lemma_small_mod(i as nat, len);
        assert(j == i + 1);
    } else {
        assert(i + 1 == l);
        vstd::arithmetic::div_mod::lemma_mod_self_0(l);
        assert(j == 0);
        vstd::arithmetic::div_mod::lemma_mod_multiples_vanish(-1, l - 1, l);
        vstd::arithmetic::div_mod::lemma_small_mod((l - 1) as nat, len);
        assert((j - 1) % l == l - 1);
    }
}

} // verus!
