//! Stable controller identity: named paths and the two lookup structures.
//!
//! A `NamedPath` ties the OS device-tree path of a controller to a stable
//! `minimal_path` identifier derived from its USB port chain, plus the
//! kernel event-device node and an optional human-assigned name.
//!
//! `MinimalPathLookup` maps minimal paths to their records and is the single
//! source of truth for which stable device carries which name.
//! `EventPathLookup` maps current kernel event-device paths to minimal paths
//! and is rebuilt from discovery whenever the device set changes.
//! Both are kept as vectors of records with pairwise-distinct keys.

use vstd::prelude::*;
use vstd::string::*;

use crate::session::Config;
use crate::strutil::{
    contains_seq, contains_str, digit_val, ends_with_str, has_prefix, has_suffix, is_digit,
    rfind_char_below, spec_digit_val, spec_is_digit, starts_with_str, str_eq,
};

verus! {

pub struct NamedPath {
    pub full_path: String,
    pub minimal_path: String,
    pub root_event_path: String,
    pub common_name: Option<String>,
}

/// Mathematical image of a `NamedPath`: every field as a character sequence.
pub struct NamedPathView {
    pub full_path: Seq<char>,
    pub minimal_path: Seq<char>,
    pub root_event_path: Seq<char>,
    pub common_name: Option<Seq<char>>,
}

impl View for NamedPath {
    type V = NamedPathView;

    open spec fn view(&self) -> NamedPathView {
        NamedPathView {
            full_path: self.full_path@,
            minimal_path: self.minimal_path@,
            root_event_path: self.root_event_path@,
            common_name: match self.common_name {
                Option::Some(s) => Option::Some(s@),
                Option::None => Option::None,
            },
        }
    }
}

impl DeepView for NamedPath {
    type V = NamedPathView;

    open spec fn deep_view(&self) -> NamedPathView {
        self.view()
    }
}

/// One entry of the event-path cache.
pub struct EventPathEntry {
    pub event_path: String,
    pub minimal_path: String,
}

/// Mathematical image of an `EventPathEntry`.
pub struct EventPathEntryView {
    pub event_path: Seq<char>,
    pub minimal_path: Seq<char>,
}

impl View for EventPathEntry {
    type V = EventPathEntryView;

    open spec fn view(&self) -> EventPathEntryView {
        EventPathEntryView { event_path: self.event_path@, minimal_path: self.minimal_path@ }
    }
}

impl DeepView for EventPathEntry {
    type V = EventPathEntryView;

    open spec fn deep_view(&self) -> EventPathEntryView {
        self.view()
    }
}

/// Runtime cache from current kernel event-device path to minimal path.
pub struct EventPathLookup(pub Vec<EventPathEntry>);

impl View for EventPathLookup {
    type V = Seq<EventPathEntryView>;

    open spec fn view(&self) -> Seq<EventPathEntryView> {
        self.0.deep_view()
    }
}

/// Persistent table from minimal path to its `NamedPath` record.
pub struct MinimalPathLookup(pub Vec<NamedPath>);

impl View for MinimalPathLookup {
    type V = Seq<NamedPathView>;

    open spec fn view(&self) -> Seq<NamedPathView> {
        self.0.deep_view()
    }
}

/// Some record carries the given minimal path.
pub open spec fn mpl_has_key(s: Seq<NamedPathView>, key: Seq<char>) -> bool {
    exists|i: int| 0 <= i < s.len() && s[i].minimal_path == key
}

/// Index of the record with the given minimal path (meaningful under
/// `mpl_has_key`; with distinct keys it is unique).
pub open spec fn mpl_index_of(s: Seq<NamedPathView>, key: Seq<char>) -> int {
    choose|i: int| 0 <= i < s.len() && s[i].minimal_path == key
}

/// The record with the given minimal path, if any.
pub open spec fn mpl_get(s: Seq<NamedPathView>, key: Seq<char>) -> Option<NamedPathView> {
    if mpl_has_key(s, key) {
        Option::Some(s[mpl_index_of(s, key)])
    } else {
        Option::None
    }
}

/// The common name bound to the given minimal path, if any.
pub open spec fn name_of(s: Seq<NamedPathView>, key: Seq<char>) -> Option<Seq<char>> {
    match mpl_get(s, key) {
        Option::Some(np) => np.common_name,
        Option::None => Option::None,
    }
}

/// Minimal paths are pairwise distinct.
pub open spec fn mpl_keys_unique(s: Seq<NamedPathView>) -> bool {
    forall|i: int, j: int|
        0 <= i < s.len() && 0 <= j < s.len() && i != j ==> s[i].minimal_path != s[j].minimal_path
}

/// No two records carry the same common name.
pub open spec fn names_unique(s: Seq<NamedPathView>) -> bool {
    forall|i: int, j: int|
        0 <= i < s.len() && 0 <= j < s.len() && i != j && s[i].common_name is Some ==> s[
            i
        ].common_name != s[j].common_name
}

/// Some record carries the given common name.
pub open spec fn is_bound_name(s: Seq<NamedPathView>, name: Seq<char>) -> bool {
    exists|i: int| 0 <= i < s.len() && s[i].common_name == Option::Some(name)
}

/// Event paths are pairwise distinct.
pub open spec fn epl_keys_unique(s: Seq<EventPathEntryView>) -> bool {
    forall|i: int, j: int|
        0 <= i < s.len() && 0 <= j < s.len() && i != j ==> s[i].event_path != s[j].event_path
}

/// Some cache entry carries the given event path.
pub open spec fn epl_has_key(s: Seq<EventPathEntryView>, key: Seq<char>) -> bool {
    exists|i: int| 0 <= i < s.len() && s[i].event_path == key
}

/// Index of the cache entry with the given event path.
pub open spec fn epl_index_of(s: Seq<EventPathEntryView>, key: Seq<char>) -> int {
    choose|i: int| 0 <= i < s.len() && s[i].event_path == key
}

/// The minimal path cached for the given event path, if any.
pub open spec fn epl_get(s: Seq<EventPathEntryView>, key: Seq<char>) -> Option<Seq<char>> {
    if epl_has_key(s, key) {
        Option::Some(s[epl_index_of(s, key)].minimal_path)
    } else {
        Option::None
    }
}

/// Pointwise effect of binding `name` to the record keyed `key`: the keyed
/// record takes the name, and any other record holding the same name loses
/// it (a name is stolen, never duplicated).
pub open spec fn spec_bind_at(np: NamedPathView, key: Seq<char>, name: Seq<char>) -> NamedPathView {
    if np.minimal_path == key {
        NamedPathView {
            full_path: np.full_path,
            minimal_path: np.minimal_path,
            root_event_path: np.root_event_path,
            common_name: Option::Some(name),
        }
    } else if np.common_name == Option::Some(name) {
        NamedPathView {
            full_path: np.full_path,
            minimal_path: np.minimal_path,
            root_event_path: np.root_event_path,
            common_name: Option::None,
        }
    } else {
        np
    }
}

/// Merge discovered records into an existing table, keeping every existing
/// record (names included) and appending only records whose minimal path is
/// absent. Processes the discovered list front to back.
pub open spec fn spec_merge_missing(
    s: Seq<NamedPathView>,
    d: Seq<NamedPathView>,
) -> Seq<NamedPathView>
    decreases d.len(),
{
    if d.len() == 0 {
        s
    } else {
        let s1 = if mpl_has_key(s, d[0].minimal_path) {
            s
        } else {
            s.push(d[0])
        };
        spec_merge_missing(s1, d.drop_first())
    }
}

/// Insert-or-replace one entry of the event-path cache, keyed by event path.
pub open spec fn spec_epl_upsert(
    s: Seq<EventPathEntryView>,
    e: EventPathEntryView,
) -> Seq<EventPathEntryView> {
    if epl_has_key(s, e.event_path) {
        s.update(epl_index_of(s, e.event_path), e)
    } else {
        s.push(e)
    }
}

/// Build the event-path cache from discovered records, front to back; a
/// later record with the same event path replaces the earlier one.
pub open spec fn spec_epl_build(
    s: Seq<EventPathEntryView>,
    d: Seq<NamedPathView>,
) -> Seq<EventPathEntryView>
    decreases d.len(),
{
    if d.len() == 0 {
        s
    } else {
        spec_epl_build(
            spec_epl_upsert(
                s,
                EventPathEntryView {
                    event_path: d[0].root_event_path,
                    minimal_path: d[0].minimal_path,
                },
            ),
            d.drop_first(),
        )
    }
}

/// Field-by-field copy of a record; string clones preserve the value.
pub fn clone_named_path(np: &NamedPath) -> (r: NamedPath)
    ensures
        r@ == np@,
{
    NamedPath {
        full_path: np.full_path.clone(),
        minimal_path: np.minimal_path.clone(),
        root_event_path: np.root_event_path.clone(),
        common_name: match &np.common_name {
            Option::Some(s) => Option::Some(s.clone()),
            Option::None => Option::None,
        },
    }
}

/// Insert-or-replace on the underlying vector, keyed by event path.
fn epl_upsert(v: &mut Vec<EventPathEntry>, e: EventPathEntry)
    requires
        epl_keys_unique(old(v).deep_view()),
    ensures
        final(v).deep_view() == spec_epl_upsert(old(v).deep_view(), e@),
        epl_keys_unique(final(v).deep_view()),
{
    let ghost dv0 = v.deep_view();
    let ghost ev = e@;
    let n: usize = v.len();
    let mut j: usize = 0;
    while j < n
        invariant
            n == v.deep_view().len(),
            v.deep_view() == dv0,
            dv0 == old(v).deep_view(),
            0 <= j <= n,
            forall|k: int| 0 <= k < j ==> dv0[k].event_path != ev.event_path,
            ev == e@,
            epl_keys_unique(dv0),
        decreases n - j,
    {
        if str_eq(v[j].event_path.as_str(), e.event_path.as_str()) {
            v.set(j, e);
            proof {
                assert(dv0[j as int].event_path == ev.event_path);
                assert(epl_has_key(dv0, ev.event_path));
                let jj = epl_index_of(dv0, ev.event_path);
                assert(0 <= jj < dv0.len() && dv0[jj].event_path == ev.event_path);
                if jj != j as int {
                    assert(dv0[jj].event_path != dv0[j as int].event_path);
                    assert(false);
                }
                assert(v.deep_view() =~= dv0.update(j as int, ev));
                assert(spec_epl_upsert(dv0, ev) == dv0.update(j as int, ev));
                assert(v.deep_view() == spec_epl_upsert(dv0, ev));
                assert forall|a: int, b: int|
                    0 <= a < v.deep_view().len() && 0 <= b < v.deep_view().len() && a
                        != b implies v.deep_view()[a].event_path != v.deep_view()[
                    b
                ].event_path by {
                    assert(v.deep_view()[a].event_path == if a == j as int {
                        ev.event_path
                    } else {
                        dv0[a].event_path
                    });
                }
            }
            return ;
        }
        j = j + 1;
    }
    v.push(e);
    proof {
        assert(!epl_has_key(dv0, ev.event_path));
        assert(v.deep_view() =~= dv0.push(ev));
        assert forall|a: int, b: int|
            0 <= a < v.deep_view().len() && 0 <= b < v.deep_view().len() && a
                != b implies v.deep_view()[a].event_path != v.deep_view()[b].event_path by {
            if a < dv0.len() && b < dv0.len() {
            } else if a == dv0.len() {
                assert(v.deep_view()[b].event_path == dv0[b].event_path);
            } else {
                assert(v.deep_view()[a].event_path == dv0[a].event_path);
            }
        }
    }
}

impl MinimalPathLookup {
    /// Position of the record keyed by `key`, if the table holds one.
    pub fn get_index(&self, key: &str) -> (r: Option<usize>)
        ensures
            match r {
                Option::Some(i) => i < self@.len() && self@[i as int].minimal_path == key@,
                Option::None => !mpl_has_key(self@, key@),
            },
    {
        let n: usize = self.0.len();
        let mut i: usize = 0;
        while i < n
            invariant
                n == self@.len(),
                0 <= i <= n,
                forall|k: int| 0 <= k < i ==> self@[k].minimal_path != key@,
            decreases n - i,
        {
            if str_eq(self.0[i].minimal_path.as_str(), key) {
                return Some(i);
            }
            i = i + 1;
        }
        None
    }

    /// The common name bound to `key`, if the table holds the key and the
    /// record carries a name.
    pub fn get_common_name(&self, key: &str) -> (r: Option<String>)
        requires
            mpl_keys_unique(self@),
        ensures
            match r {
                Option::Some(n) => name_of(self@, key@) == Option::Some(n@),
                Option::None => name_of(self@, key@) is None,
            },
    {
        match self.get_index(key) {
            Option::Some(i) => {
                proof {
                    assert(self@[i as int].minimal_path == key@);
                    assert(mpl_has_key(self@, key@));
                    let jj = mpl_index_of(self@, key@);
                    assert(0 <= jj < self@.len() && self@[jj].minimal_path == key@);
                    if jj != i as int {
                        assert(self@[jj].minimal_path != self@[i as int].minimal_path);
                        assert(false);
                    }
                }
                match &self.0[i].common_name {
                    Option::Some(s) => Some(s.clone()),
                    Option::None => None,
                }
            },
            Option::None => None,
        }
    }

    /// Whether some record carries `name` as its common name.
    pub fn has_bound_name(&self, name: &str) -> (r: bool)
        ensures
            r == is_bound_name(self@, name@),
    {
        let n: usize = self.0.len();
        let mut i: usize = 0;
        while i < n
            invariant
                n == self@.len(),
                0 <= i <= n,
                forall|k: int| 0 <= k < i ==> self@[k].common_name != Option::Some(name@),
            decreases n - i,
        {
            let hit = match &self.0[i].common_name {
                Option::Some(s) => str_eq(s.as_str(), name),
                Option::None => false,
            };
            if hit {
                proof {
                    assert(self@[i as int].common_name == Option::Some(name@));
                }
                return true;
            }
            i = i + 1;
        }
        false
    }

    /// Bind `name` to the record keyed `key` and clear it from any other
    /// record that held it.
    pub fn bind_name(&mut self, key: &str, name: &str)
        ensures
            final(self)@.len() == old(self)@.len(),
            forall|i: int|
                0 <= i < final(self)@.len() ==> final(self)@[i] == spec_bind_at(
                    old(self)@[i],
                    key@,
                    name@,
                ),
    {
        let n: usize = self.0.len();
        let mut out: Vec<NamedPath> = Vec::new();
        let mut i: usize = 0;
        while i < n
            invariant
                n == self@.len(),
                self@ == old(self)@,
                0 <= i <= n,
                out@.len() == i,
                forall|k: int| 0 <= k < i ==> out@[k]@ == spec_bind_at(self@[k], key@, name@),
            decreases n - i,
        {
            let np = &self.0[i];
            let replacement: NamedPath = if str_eq(np.minimal_path.as_str(), key) {
                NamedPath {
                    full_path: np.full_path.clone(),
                    minimal_path: np.minimal_path.clone(),
                    root_event_path: np.root_event_path.clone(),
                    common_name: Some(String::from_str(name)),
                }
            } else {
                let clears = match &np.common_name {
                    Option::Some(s) => str_eq(s.as_str(), name),
                    Option::None => false,
                };
                if clears {
                    NamedPath {
                        full_path: np.full_path.clone(),
                        minimal_path: np.minimal_path.clone(),
                        root_event_path: np.root_event_path.clone(),
                        common_name: None,
                    }
                } else {
                    clone_named_path(np)
                }
            };
            out.push(replacement);
            i = i + 1;
        }
        self.0 = out;
    }

    /// Merge discovered records, keeping existing entries (their names win
    /// over rediscovery) and appending only unseen minimal paths.
    pub fn add_missing_paths_for_joys(&mut self, discovered: &Vec<NamedPath>)
        ensures
            final(self)@ == spec_merge_missing(old(self)@, discovered.deep_view()),
    {
        let ghost d = discovered.deep_view();
        let m: usize = discovered.len();
        proof {
            assert(d.subrange(0, m as int) =~= d);
        }
        let mut i: usize = 0;
        while i < m
            invariant
                m == d.len(),
                d == discovered.deep_view(),
                0 <= i <= m,
                spec_merge_missing(self@, d.subrange(i as int, m as int)) == spec_merge_missing(
                    old(self)@,
                    d,
                ),
            decreases m - i,
        {
            let ghost rest = d.subrange(i as int, m as int);
            let ghost pre = self@;
            proof {
                assert(rest[0] == d[i as int]);
                assert(rest.drop_first() =~= d.subrange(i as int + 1, m as int));
            }
            match self.get_index(discovered[i].minimal_path.as_str()) {
                Option::Some(_) => {
                    proof {
                        assert(mpl_has_key(pre, rest[0].minimal_path));
                    }
                },
                Option::None => {
                    let np = clone_named_path(&discovered[i]);
                    self.0.push(np);
                    proof {
                        assert(!mpl_has_key(pre, rest[0].minimal_path));
                        assert(self@ =~= pre.push(rest[0]));
                    }
                },
            }
            i = i + 1;
        }
        proof {
            assert(d.subrange(m as int, m as int) =~= Seq::<NamedPathView>::empty());
        }
    }
}

impl EventPathLookup {
    /// The minimal path cached for `devpath`, if any.
    pub fn get(&self, devpath: &str) -> (r: Option<String>)
        requires
            epl_keys_unique(self@),
        ensures
            match r {
                Option::Some(mp) => Option::Some(mp@) == epl_get(self@, devpath@),
                Option::None => !epl_has_key(self@, devpath@),
            },
    {
        let n: usize = self.0.len();
        let mut i: usize = 0;
        while i < n
            invariant
                n == self@.len(),
                epl_keys_unique(self@),
                0 <= i <= n,
                forall|k: int| 0 <= k < i ==> self@[k].event_path != devpath@,
            decreases n - i,
        {
            if str_eq(self.0[i].event_path.as_str(), devpath) {
                proof {
                    assert(self@[i as int].event_path == devpath@);
                    assert(epl_has_key(self@, devpath@));
                    let jj = epl_index_of(self@, devpath@);
                    assert(0 <= jj < self@.len() && self@[jj].event_path == devpath@);
                    if jj != i as int {
                        assert(self@[jj].event_path != self@[i as int].event_path);
                        assert(false);
                    }
                }
                return Some(self.0[i].minimal_path.clone());
            }
            i = i + 1;
        }
        None
    }

    /// Rebuild the cache from freshly discovered records: one entry per
    /// event path, a later discovery replacing an earlier one.
    pub fn repath(discovered: &Vec<NamedPath>) -> (r: Self)
        ensures
            r@ == spec_epl_build(Seq::empty(), discovered.deep_view()),
            epl_keys_unique(r@),
    {
        let ghost d = discovered.deep_view();
        let m: usize = discovered.len();
        let mut v: Vec<EventPathEntry> = Vec::new();
        proof {
            assert(v.deep_view() =~= Seq::<EventPathEntryView>::empty());
            assert(d.subrange(0, m as int) =~= d);
        }
        let mut i: usize = 0;
        while i < m
            invariant
                m == d.len(),
                d == discovered.deep_view(),
                0 <= i <= m,
                epl_keys_unique(v.deep_view()),
                spec_epl_build(v.deep_view(), d.subrange(i as int, m as int)) == spec_epl_build(
                    Seq::empty(),
                    d,
                ),
            decreases m - i,
        {
            let ghost rest = d.subrange(i as int, m as int);
            proof {
                assert(rest[0] == d[i as int]);
                assert(rest.drop_first() =~= d.subrange(i as int + 1, m as int));
            }
            let entry = EventPathEntry {
                event_path: discovered[i].root_event_path.clone(),
                minimal_path: discovered[i].minimal_path.clone(),
            };
            proof {
                assert(entry@ == EventPathEntryView {
                    event_path: rest[0].root_event_path,
                    minimal_path: rest[0].minimal_path,
                });
            }
            epl_upsert(&mut v, entry);
            i = i + 1;
        }
        proof {
            assert(d.subrange(m as int, m as int) =~= Seq::<NamedPathView>::empty());
        }
        EventPathLookup(v)
    }
}

/// The filter marker: a directory entry is a joystick entry when its name
/// holds this text.
pub open spec fn joy_marker() -> Seq<char> {
    "event-joystick"@
}

/// The suffix a well-formed joystick entry ends with.
pub open spec fn joy_suffix() -> Seq<char> {
    "-event-joystick"@
}

/// The stable-path directory prefix a well-formed entry starts with.
pub open spec fn by_path_prefix() -> Seq<char> {
    "/dev/input/by-path/pci"@
}

/// The USB marker that must occur in the port chain.
pub open spec fn usb_marker() -> Seq<char> {
    "usb"@
}

/// Prefix of the kernel event-device node path.
pub open spec fn event_node_prefix() -> Seq<char> {
    "/dev/input/event"@
}

/// `j` is the last colon strictly before `bound`.
pub open spec fn is_last_colon(s: Seq<char>, bound: int, j: int) -> bool {
    &&& 0 <= j < bound <= s.len()
    &&& s[j] == ':'
    &&& forall|k: int| j < k < bound ==> s[k] != ':'
}

/// The position of the last colon strictly before `bound`.
pub open spec fn last_colon_before(s: Seq<char>, bound: int) -> int {
    choose|j: int| #[trigger] is_last_colon(s, bound, j)
}

/// The naming convention of a stable joystick entry. The name reads, back
/// to front: the literal suffix "-event-joystick"; one decimal digit, the
/// multi-controller index; a dot; the interface tail ":1"; and before it
/// the USB port chain, which starts after the last remaining colon and
/// must be preceded by "usb" somewhere after the "pci" directory prefix.
pub open spec fn joy_path_ok(s: Seq<char>) -> bool {
    let n = s.len() as int;
    let t_end = n - joy_suffix().len();
    let h_end = t_end - 2;
    &&& has_prefix(s, by_path_prefix())
    &&& has_suffix(s, joy_suffix())
    &&& t_end >= 2
    &&& spec_is_digit(s[t_end - 1])
    &&& s[t_end - 2] == '.'
    &&& h_end >= 2
    &&& s[h_end - 1] == '1'
    &&& s[h_end - 2] == ':'
    &&& (exists|j: int| #[trigger] is_last_colon(s, h_end - 2, j))
    &&& contains_seq(s.subrange(0, last_colon_before(s, h_end - 2)), usb_marker())
}

/// The digit character carrying the multi-controller index.
pub open spec fn joy_digit(s: Seq<char>) -> char {
    s[s.len() - joy_suffix().len() - 1]
}

/// The multi-controller index of a well-formed entry.
pub open spec fn joy_index(s: Seq<char>) -> int {
    spec_digit_val(joy_digit(s))
}

/// The port chain of a well-formed entry: from after the last colon that
/// precedes the ":1" tail, up to and including that tail.
pub open spec fn joy_chain(s: Seq<char>) -> Seq<char> {
    let n = s.len() as int;
    let t_end = n - joy_suffix().len();
    let h_end = t_end - 2;
    s.subrange(last_colon_before(s, h_end - 2) + 1, h_end)
}

/// The stable identifier of a well-formed entry: "{port chain}.{index}".
pub open spec fn joy_minimal(s: Seq<char>) -> Seq<char> {
    joy_chain(s) + seq!['.'] + seq![joy_digit(s)]
}

/// Length of the maximal run of digits at the end of a link target.
pub open spec fn suffix_digits_len(t: Seq<char>) -> nat
    decreases t.len(),
{
    if t.len() == 0 {
        0
    } else if spec_is_digit(t.last()) {
        1 + suffix_digits_len(t.drop_last())
    } else {
        0
    }
}

/// The numeric suffix of a link target.
pub open spec fn event_digits(t: Seq<char>) -> Seq<char> {
    t.subrange(t.len() - suffix_digits_len(t), t.len() as int)
}

/// The kernel event-device node a link target points at, rebuilt from its
/// numeric suffix.
pub open spec fn root_event_of(t: Seq<char>) -> Seq<char> {
    event_node_prefix() + event_digits(t)
}

/// The last colon before a bound is unique.
proof fn lemma_last_colon_unique(s: Seq<char>, bound: int, j1: int, j2: int)
    requires
        is_last_colon(s, bound, j1),
        is_last_colon(s, bound, j2),
    ensures
        j1 == j2,
{
    if j1 < j2 {
        assert(s[j2] != ':');
        assert(false);
    }
    if j2 < j1 {
        assert(s[j1] != ':');
        assert(false);
    }
}

/// What parsing one directory entry name yields.
pub enum JoyPathParse {
    NotJoystick,
    Malformed,
    Parsed(String, u32),
}

/// Parse one stable-path directory entry. An entry without the joystick
/// marker is not a joystick; one with the marker either follows the naming
/// convention and yields the stable identifier and multi-controller index,
/// or is malformed (a structural failure for the caller to treat as fatal).
pub fn parse_joystick_path(full_path: &str) -> (r: JoyPathParse)
    ensures
        match r {
            JoyPathParse::NotJoystick => !contains_seq(full_path@, joy_marker()),
            JoyPathParse::Malformed => contains_seq(full_path@, joy_marker()) && !joy_path_ok(
                full_path@,
            ),
            JoyPathParse::Parsed(mp, idx) => {
                &&& contains_seq(full_path@, joy_marker())
                &&& joy_path_ok(full_path@)
                &&& mp@ == joy_minimal(full_path@)
                &&& idx as int == joy_index(full_path@)
            },
        },
{
    proof {
        reveal_strlit("event-joystick");
        reveal_strlit("-event-joystick");
        reveal_strlit("/dev/input/by-path/pci");
        reveal_strlit("usb");
        reveal_strlit(".");
    }
    if !contains_str(full_path, "event-joystick") {
        return JoyPathParse::NotJoystick;
    }
    if !starts_with_str(full_path, "/dev/input/by-path/pci") {
        return JoyPathParse::Malformed;
    }
    if !ends_with_str(full_path, "-event-joystick") {
        return JoyPathParse::Malformed;
    }
    let n: usize = full_path.unicode_len();
    let t_end: usize = n - 15;
    if t_end < 2 {
        return JoyPathParse::Malformed;
    }
    let d = full_path.get_char(t_end - 1);
    if !is_digit(d) {
        return JoyPathParse::Malformed;
    }
    if full_path.get_char(t_end - 2) != '.' {
        return JoyPathParse::Malformed;
    }
    let h_end: usize = t_end - 2;
    if h_end < 2 {
        return JoyPathParse::Malformed;
    }
    if full_path.get_char(h_end - 1) != '1' {
        return JoyPathParse::Malformed;
    }
    if full_path.get_char(h_end - 2) != ':' {
        return JoyPathParse::Malformed;
    }
    match rfind_char_below(full_path, ':', h_end - 2) {
        Option::None => {
            proof {
                if exists|j: int| #[trigger] is_last_colon(full_path@, h_end - 2, j) {
                    let j = choose|j: int| #[trigger] is_last_colon(full_path@, h_end - 2, j);
                    assert(full_path@[j] != ':');
                    assert(false);
                }
            }
            JoyPathParse::Malformed
        },
        Option::Some(j) => {
            proof {
                assert(is_last_colon(full_path@, h_end - 2, j as int));
                let jc = last_colon_before(full_path@, h_end - 2);
                assert(is_last_colon(full_path@, h_end - 2, jc));
                lemma_last_colon_unique(full_path@, h_end - 2, jc, j as int);
            }
            let head = full_path.substring_char(0, j);
            if !contains_str(head, "usb") {
                return JoyPathParse::Malformed;
            }
            let chain = full_path.substring_char(j + 1, h_end);
            let mut mp = String::from_str(chain);
            mp.append(".");
            let dstr = full_path.substring_char(t_end - 1, t_end);
            mp.append(dstr);
            let idx = digit_val(d);
            proof {
                assert(joy_path_ok(full_path@));
                assert(("."@) =~= seq!['.']);
                assert(dstr@ =~= seq![joy_digit(full_path@)]);
                assert(mp@ =~= joy_minimal(full_path@));
            }
            JoyPathParse::Parsed(mp, idx)
        },
    }
}

/// How many trailing digit positions the scan confirmed determines the
/// whole digit suffix.
proof fn lemma_suffix_digits(t: Seq<char>, i: int)
    requires
        0 <= i <= t.len(),
        forall|k: int| i <= k < t.len() ==> spec_is_digit(#[trigger] t[k]),
        i > 0 ==> !spec_is_digit(t[i - 1]),
    ensures
        suffix_digits_len(t) == t.len() - i,
    decreases t.len(),
{
    if t.len() == 0 {
    } else if i == t.len() {
        assert(!spec_is_digit(t.last()));
    } else {
        assert(spec_is_digit(t.last()));
        assert forall|k: int|
            i <= k < t.drop_last().len() implies spec_is_digit(#[trigger] t.drop_last()[k]) by {
            assert(t.drop_last()[k] == t[k]);
        }
        if i > 0 {
            assert(t.drop_last()[i - 1] == t[i - 1]);
        }
        lemma_suffix_digits(t.drop_last(), i);
    }
}

/// Resolve a symlink target to the kernel event-device node it names,
/// from its numeric suffix; a target without one is malformed.
pub fn parse_event_link(link_target: &str) -> (r: Option<String>)
    ensures
        match r {
            Option::Some(ep) => suffix_digits_len(link_target@) > 0 && ep@ == root_event_of(
                link_target@,
            ),
            Option::None => suffix_digits_len(link_target@) == 0,
        },
{
    proof {
        reveal_strlit("/dev/input/event");
    }
    let n: usize = link_target.unicode_len();
    let mut i: usize = n;
    let mut boundary = false;
    while i > 0 && !boundary
        invariant
            n == link_target@.len(),
            0 <= i <= n,
            forall|k: int| i <= k < n ==> spec_is_digit(#[trigger] link_target@[k]),
            boundary ==> i > 0 && !spec_is_digit(link_target@[i - 1]),
        decreases i + if boundary {
            0int
        } else {
            1int
        },
    {
        if is_digit(link_target.get_char(i - 1)) {
            i = i - 1;
        } else {
            boundary = true;
        }
    }
    proof {
        lemma_suffix_digits(link_target@, i as int);
    }
    if i == n {
        return None;
    }
    let digits = link_target.substring_char(i, n);
    let mut ep = String::from_str("/dev/input/event");
    ep.append(digits);
    proof {
        assert(digits@ =~= event_digits(link_target@));
        assert(ep@ == root_event_of(link_target@));
    }
    Some(ep)
}

/// One directory entry handed in by the caller: the entry's own path and
/// the target its symlink points at.
pub struct DiscoveredEntry {
    pub full_path: String,
    pub link_target: String,
}

/// Mathematical image of a `DiscoveredEntry`.
pub struct DiscoveredEntryView {
    pub full_path: Seq<char>,
    pub link_target: Seq<char>,
}

impl View for DiscoveredEntry {
    type V = DiscoveredEntryView;

    open spec fn view(&self) -> DiscoveredEntryView {
        DiscoveredEntryView { full_path: self.full_path@, link_target: self.link_target@ }
    }
}

impl DeepView for DiscoveredEntry {
    type V = DiscoveredEntryView;

    open spec fn deep_view(&self) -> DiscoveredEntryView {
        self.view()
    }
}

/// The record a well-formed entry discovers: unnamed, under its stable
/// identifier, pointing at its kernel event node.
pub open spec fn discovered_record(e: DiscoveredEntryView) -> NamedPathView {
    NamedPathView {
        full_path: e.full_path,
        minimal_path: joy_minimal(e.full_path),
        root_event_path: root_event_of(e.link_target),
        common_name: Option::None,
    }
}

/// Discovery over a directory listing, front to back. Entries without the
/// joystick marker are ignored; a marked entry that breaks the naming
/// convention, or whose link has no numeric suffix, fails the whole run
/// (a structural failure); a well-formed entry whose multi-controller
/// index reaches the configured cap is silently dropped.
pub open spec fn spec_repath(entries: Seq<DiscoveredEntryView>, cap: u32) -> Result<
    Seq<NamedPathView>,
    (),
>
    decreases entries.len(),
{
    if entries.len() == 0 {
        Result::Ok(Seq::empty())
    } else {
        let e = entries[0];
        if !contains_seq(e.full_path, joy_marker()) {
            spec_repath(entries.drop_first(), cap)
        } else if !joy_path_ok(e.full_path) {
            Result::Err(())
        } else if joy_index(e.full_path) >= cap {
            spec_repath(entries.drop_first(), cap)
        } else if suffix_digits_len(e.link_target) == 0 {
            Result::Err(())
        } else {
            match spec_repath(entries.drop_first(), cap) {
                Result::Ok(rest) => Result::Ok(seq![discovered_record(e)] + rest),
                Result::Err(()) => Result::Err(()),
            }
        }
    }
}

/// Scan the handed-in directory entries and derive a record per connected
/// joystick below the multi-controller cap. An `Err` reports a structural
/// failure (a marked entry that fails the convention): the host is not as
/// assumed and the caller treats it as fatal.
pub fn repath(entries: &Vec<DiscoveredEntry>, config: &Config) -> (r: Result<Vec<NamedPath>, ()>)
    ensures
        match r {
            Result::Ok(v) => spec_repath(
                entries.deep_view(),
                config.number_of_multi_port_controllers_to_use,
            ) == Result::<Seq<NamedPathView>, ()>::Ok(v.deep_view()),
            Result::Err(()) => spec_repath(
                entries.deep_view(),
                config.number_of_multi_port_controllers_to_use,
            ) is Err,
        },
{
    let cap = config.number_of_multi_port_controllers_to_use;
    let ghost dv = entries.deep_view();
    let m: usize = entries.len();
    let mut out: Vec<NamedPath> = Vec::new();
    proof {
        assert(dv.subrange(0, m as int) =~= dv);
        assert(out.deep_view() =~= Seq::<NamedPathView>::empty());
        assert(dv.subrange(0, m as int) == dv);
        assert(spec_repath(dv.subrange(0, m as int), cap) == spec_repath(dv, cap));
        if spec_repath(dv, cap) is Ok {
            assert(out.deep_view() + spec_repath(dv, cap)->Ok_0 =~= spec_repath(dv, cap)->Ok_0);
            assert(Result::<Seq<NamedPathView>, ()>::Ok(out.deep_view() + spec_repath(dv, cap)->Ok_0)
                == spec_repath(dv, cap));
        }
    }
    let mut i: usize = 0;
    while i < m
        invariant
            m == dv.len(),
            m == entries@.len(),
            dv == entries.deep_view(),
            cap == config.number_of_multi_port_controllers_to_use,
            0 <= i <= m,
            spec_repath(dv, cap) is Ok <==> spec_repath(dv.subrange(i as int, m as int), cap)
                is Ok,
            spec_repath(dv.subrange(i as int, m as int), cap) is Ok ==> spec_repath(dv, cap)->Ok_0
                == out.deep_view() + spec_repath(dv.subrange(i as int, m as int), cap)->Ok_0,
        decreases m - i,
    {
        let ghost rest = dv.subrange(i as int, m as int);
        let ghost pre = out.deep_view();
        proof {
            assert(rest[0] == dv[i as int]);
            assert(rest.drop_first() =~= dv.subrange(i as int + 1, m as int));
        }
        let entry = &entries[i];
        proof {
            assert(entry@ == dv[i as int]);
        }
        match parse_joystick_path(entry.full_path.as_str()) {
            JoyPathParse::NotJoystick => {},
            JoyPathParse::Malformed => {
                return Err(());
            },
            JoyPathParse::Parsed(mp, idx) => {
                if idx < cap {
                    match parse_event_link(entry.link_target.as_str()) {
                        Option::None => {
                            return Err(());
                        },
                        Option::Some(ep) => {
                            let np = NamedPath {
                                full_path: entry.full_path.clone(),
                                minimal_path: mp,
                                root_event_path: ep,
                                common_name: None,
                            };
                            proof {
                                assert(np@ == discovered_record(dv[i as int]));
                            }
                            out.push(np);
                            proof {
                                assert(out.deep_view() =~= pre.push(
                                    discovered_record(dv[i as int]),
                                ));
                                assert forall|s2: Seq<NamedPathView>|
                                    pre.push(discovered_record(dv[i as int])) + s2 =~= pre + (seq![
                                    discovered_record(dv[i as int]),
                                ] + s2) by {}
                            }
                        },
                    }
                }
            },
        }
        i = i + 1;
    }
    proof {
        assert(dv.subrange(m as int, m as int) =~= Seq::<DiscoveredEntryView>::empty());
        if spec_repath(dv, cap) is Ok {
            assert(out.deep_view() + Seq::<NamedPathView>::empty() =~= out.deep_view());
        }
    }
    Ok(out)
}

/// Discovery never produces a record whose multi-controller index reaches
/// the configured cap: the index a minimal path ends with stays below it.
pub proof fn lemma_repath_respects_cap(entries: Seq<DiscoveredEntryView>, cap: u32)
    ensures
        spec_repath(entries, cap) is Ok ==> forall|k: int|
            0 <= k < spec_repath(entries, cap)->Ok_0.len() ==> spec_digit_val(
                #[trigger] spec_repath(entries, cap)->Ok_0[k].minimal_path.last(),
            ) < cap,
    decreases entries.len(),
{
    if entries.len() == 0 {
    } else {
        let e = entries[0];
        lemma_repath_respects_cap(entries.drop_first(), cap);
        if contains_seq(e.full_path, joy_marker()) && joy_path_ok(e.full_path) && joy_index(
            e.full_path,
        ) < cap && suffix_digits_len(e.link_target) > 0 {
            if spec_repath(entries.drop_first(), cap) is Ok {
                let rest = spec_repath(entries.drop_first(), cap)->Ok_0;
                let all = seq![discovered_record(e)] + rest;
                assert(spec_repath(entries, cap)->Ok_0 == all);
                assert(all[0].minimal_path == joy_minimal(e.full_path));
                assert(joy_minimal(e.full_path).last() == joy_digit(e.full_path));
                assert forall|k: int|
                    0 <= k < all.len() implies spec_digit_val(
                    #[trigger] all[k].minimal_path.last(),
                ) < cap by {
                    if k > 0 {
                        assert(all[k] == rest[k - 1]);
                    }
                }
            }
        }
    }
}

/// Binding a name preserves the uniqueness of common names: after any
/// successful claim, a non-null name still marks at most one record.
pub proof fn lemma_bind_preserves_names_unique(
    s1: Seq<NamedPathView>,
    s2: Seq<NamedPathView>,
    key: Seq<char>,
    name: Seq<char>,
)
    requires
        mpl_keys_unique(s1),
        names_unique(s1),
        s2.len() == s1.len(),
        forall|i: int| 0 <= i < s2.len() ==> s2[i] == spec_bind_at(s1[i], key, name),
    ensures
        names_unique(s2),
{
    assert forall|i: int, j: int|
        0 <= i < s2.len() && 0 <= j < s2.len() && i != j && s2[i].common_name is Some implies s2[
        i
    ].common_name != s2[j].common_name by {
        if s2[i].common_name == Option::Some(name) {
            assert(s1[i].minimal_path == key);
            if s2[j].common_name == Option::Some(name) {
                assert(s1[j].minimal_path == key);
                assert(false);
            }
        } else {
            assert(s2[i].common_name == s1[i].common_name);
            if s2[j].common_name == s2[i].common_name {
                assert(s2[j].common_name == s1[j].common_name);
                assert(false);
            }
        }
    }
}

/// Binding a name never touches the minimal paths, so their uniqueness
/// carries over tick after tick.
pub proof fn lemma_bind_preserves_keys_unique(
    s1: Seq<NamedPathView>,
    s2: Seq<NamedPathView>,
    key: Seq<char>,
    name: Seq<char>,
)
    requires
        mpl_keys_unique(s1),
        s2.len() == s1.len(),
        forall|i: int| 0 <= i < s2.len() ==> s2[i] == spec_bind_at(s1[i], key, name),
    ensures
        mpl_keys_unique(s2),
{
    assert forall|i: int, j: int|
        0 <= i < s2.len() && 0 <= j < s2.len() && i != j implies s2[i].minimal_path != s2[
        j
    ].minimal_path by {
        assert(s2[i].minimal_path == s1[i].minimal_path);
        assert(s2[j].minimal_path == s1[j].minimal_path);
    }
}

/// Merging freshly discovered, unnamed records preserves both key and name
/// uniqueness.
pub proof fn lemma_merge_preserves_invariants(s: Seq<NamedPathView>, d: Seq<NamedPathView>)
    requires
        mpl_keys_unique(s),
        names_unique(s),
        forall|i: int| 0 <= i < d.len() ==> d[i].common_name is None,
    ensures
        mpl_keys_unique(spec_merge_missing(s, d)),
        names_unique(spec_merge_missing(s, d)),
    decreases d.len(),
{
    if d.len() == 0 {
    } else {
        if mpl_has_key(s, d[0].minimal_path) {
            lemma_merge_preserves_invariants(s, d.drop_first());
        } else {
            let s1 = s.push(d[0]);
            assert forall|i: int, j: int|
                0 <= i < s1.len() && 0 <= j < s1.len() && i != j implies s1[i].minimal_path != s1[
                j
            ].minimal_path by {
                if i < s.len() && j < s.len() {
                } else if i == s.len() {
                    assert(s1[j].minimal_path == s[j].minimal_path);
                    assert(!mpl_has_key(s, d[0].minimal_path));
                } else {
                    assert(s1[i].minimal_path == s[i].minimal_path);
                    assert(!mpl_has_key(s, d[0].minimal_path));
                }
            }
            lemma_merge_preserves_invariants(s1, d.drop_first());
        }
    }
}

} // verus!
