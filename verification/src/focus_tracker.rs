//! The focus tracker: a state machine over two compositor window protocols.
//!
//! A *discovery* protocol announces windows, later reports each window's
//! application identity, and reports closure. A *state* protocol reports, for
//! a linked per-window object with its own independent numbering, a raw state
//! bitfield (the "activated" flag is the 4-byte value `2`) and closure. The
//! tracker keeps the discovery-side window table, the correlation map from
//! state-protocol identifiers to discovery-protocol identifiers, and the last
//! identity it reported; it emits a notification only when the activated
//! window's identity differs from the last one reported.
//!
//! The whole transition relation is captured by the spec function [`step`]
//! over the mathematical view [`TrackerView`]; the executable
//! [`FocusTracker::handle_event`] is proved to follow it exactly.

use vstd::prelude::*;

verus! {

/// One live discovery-side window: its protocol identifier and its
/// application identity, absent until the identity event arrives.
pub struct WindowEntry {
    pub id: u32,
    pub app_id: Option<String>,
}

/// One correlation-map entry: the state-protocol identifier of a window,
/// mapped to the discovery-protocol identifier of the same window.
#[derive(Clone, Copy)]
pub struct LinkEntry {
    pub state_id: u32,
    pub ext_id: u32,
}

/// One protocol event, reduced to the plain values the tracker decides on.
pub enum TrackerEvent {
    /// The discovery protocol announced a new window and a linked state-side
    /// object was requested for it: the only moment the two identifier
    /// spaces are known to describe the same window.
    Discovered { ext_id: u32, state_id: u32 },
    /// The discovery protocol reported the window's application identity.
    AppIdReceived { ext_id: u32, app_id: String },
    /// The discovery protocol reported the window closed.
    DiscoveryClosed { ext_id: u32 },
    /// The state protocol reported a raw state bitfield for a window.
    StateChanged { state_id: u32, state_bits: Vec<u8> },
    /// The state protocol reported the window closed.
    StateClosed { state_id: u32 },
}

/// The mathematical view of one event.
pub ghost enum TrackerEventView {
    Discovered { ext_id: u32, state_id: u32 },
    AppIdReceived { ext_id: u32, app_id: Seq<char> },
    DiscoveryClosed { ext_id: u32 },
    StateChanged { state_id: u32, state_bits: Seq<u8> },
    StateClosed { state_id: u32 },
}

impl View for TrackerEvent {
    type V = TrackerEventView;

    open spec fn view(&self) -> TrackerEventView {
        match self {
            TrackerEvent::Discovered { ext_id, state_id } => TrackerEventView::Discovered {
                ext_id: *ext_id,
                state_id: *state_id,
            },
            TrackerEvent::AppIdReceived { ext_id, app_id } => TrackerEventView::AppIdReceived {
                ext_id: *ext_id,
                app_id: app_id@,
            },
            TrackerEvent::DiscoveryClosed { ext_id } => TrackerEventView::DiscoveryClosed {
                ext_id: *ext_id,
            },
            TrackerEvent::StateChanged { state_id, state_bits } => TrackerEventView::StateChanged {
                state_id: *state_id,
                state_bits: state_bits@,
            },
            TrackerEvent::StateClosed { state_id } => TrackerEventView::StateClosed {
                state_id: *state_id,
            },
        }
    }
}

/// The mathematical view of the tracker: the discovery-side window table,
/// the correlation map, and the last reported identity.
#[verifier::ext_equal]
pub ghost struct TrackerView {
    pub windows: Map<u32, Option<Seq<char>>>,
    pub links: Map<u32, u32>,
    pub last_focused: Option<Seq<char>>,
}

/// The identity reported for a window whose identity event has not arrived.
pub open spec fn placeholder_identity() -> Seq<char> {
    "unknown"@
}

/// The value of the `i`-th 4-byte little-endian chunk of a state bitfield.
pub open spec fn chunk_value(bits: Seq<u8>, i: int) -> int {
    bits[4 * i] + 256 * bits[4 * i + 1] + 65536 * bits[4 * i + 2] + 16777216 * bits[4 * i + 3]
}

/// A state bitfield marks the window activated when any complete 4-byte
/// chunk holds the value `2`. Trailing bytes short of a chunk are ignored.
pub open spec fn bits_activated(bits: Seq<u8>) -> bool {
    exists|i: int| 0 <= i && 4 * i + 3 < bits.len() && chunk_value(bits, i) == 2
}

/// The identity an activation of `state_id` resolves to: the correlated
/// window's identity, or the placeholder while it is not yet known.
pub open spec fn resolved_identity(t: TrackerView, state_id: u32) -> Seq<char> {
    if t.links.dom().contains(state_id) {
        let ext_id = t.links[state_id];
        if t.windows.dom().contains(ext_id) && t.windows[ext_id] is Some {
            t.windows[ext_id]->0
        } else {
            placeholder_identity()
        }
    } else {
        placeholder_identity()
    }
}

/// The transition relation: from a tracker state and one event to the next
/// state and the notification to emit, if any.
pub open spec fn step(t: TrackerView, e: TrackerEventView) -> (TrackerView, Option<Seq<char>>) {
    match e {
        TrackerEventView::Discovered { ext_id, state_id } => (
            TrackerView {
                windows: if t.windows.dom().contains(ext_id) {
                    t.windows
                } else {
                    t.windows.insert(ext_id, None)
                },
                links: t.links.insert(state_id, ext_id),
                last_focused: t.last_focused,
            },
            None,
        ),
        TrackerEventView::AppIdReceived { ext_id, app_id } => (
            TrackerView {
                windows: if t.windows.dom().contains(ext_id) {
                    t.windows.insert(ext_id, Some(app_id))
                } else {
                    t.windows
                },
                links: t.links,
                last_focused: t.last_focused,
            },
            None,
        ),
        TrackerEventView::DiscoveryClosed { ext_id } => (
            TrackerView {
                windows: t.windows.remove(ext_id),
                links: t.links.remove_keys(
                    t.links.dom().filter(|s: u32| t.links[s] == ext_id),
                ),
                last_focused: t.last_focused,
            },
            None,
        ),
        TrackerEventView::StateChanged { state_id, state_bits } => {
            if !bits_activated(state_bits) {
                (t, None)
            } else {
                let app = resolved_identity(t, state_id);
                if t.last_focused == Some(app) {
                    (t, None)
                } else {
                    (
                        TrackerView {
                            windows: t.windows,
                            links: t.links,
                            last_focused: Some(app),
                        },
                        Some(app),
                    )
                }
            }
        },
        TrackerEventView::StateClosed { state_id } => (
            TrackerView {
                windows: t.windows,
                links: t.links.remove(state_id),
                last_focused: t.last_focused,
            },
            None,
        ),
    }
}

/// Whether some entry of the window table carries this identifier.
pub open spec fn windows_contains(s: Seq<WindowEntry>, id: u32) -> bool {
    exists|i: int| 0 <= i < s.len() && (#[trigger] s[i]).id == id
}

/// The position of the entry carrying this identifier.
pub open spec fn window_index(s: Seq<WindowEntry>, id: u32) -> int {
    choose|i: int| 0 <= i < s.len() && (#[trigger] s[i]).id == id
}

/// No two entries of the window table carry the same identifier.
pub open spec fn windows_unique(s: Seq<WindowEntry>) -> bool {
    forall|i: int, j: int|
        0 <= i < s.len() && 0 <= j < s.len() && (#[trigger] s[i]).id == (#[trigger] s[j]).id ==> i
            == j
}

/// The window table as a map from identifier to optional identity.
pub open spec fn windows_view(s: Seq<WindowEntry>) -> Map<u32, Option<Seq<char>>> {
    Map::new(
        |id: u32| windows_contains(s, id),
        |id: u32| s[window_index(s, id)].app_id.deep_view(),
    )
}

/// Whether some entry of the correlation table carries this state identifier.
pub open spec fn links_contains(s: Seq<LinkEntry>, state_id: u32) -> bool {
    exists|i: int| 0 <= i < s.len() && (#[trigger] s[i]).state_id == state_id
}

/// The position of the entry carrying this state identifier.
pub open spec fn link_index(s: Seq<LinkEntry>, state_id: u32) -> int {
    choose|i: int| 0 <= i < s.len() && (#[trigger] s[i]).state_id == state_id
}

/// No two entries of the correlation table carry the same state identifier.
pub open spec fn links_unique(s: Seq<LinkEntry>) -> bool {
    forall|i: int, j: int|
        0 <= i < s.len() && 0 <= j < s.len() && (#[trigger] s[i]).state_id == (
        #[trigger] s[j]).state_id ==> i == j
}

/// The correlation table as a map from state identifier to discovery identifier.
pub open spec fn links_view(s: Seq<LinkEntry>) -> Map<u32, u32> {
    Map::new(|id: u32| links_contains(s, id), |id: u32| s[link_index(s, id)].ext_id)
}

proof fn lemma_windows_push(s: Seq<WindowEntry>, e: WindowEntry)
    requires
        windows_unique(s),
        !windows_contains(s, e.id),
    ensures
        windows_unique(s.push(e)),
        windows_view(s.push(e)) == windows_view(s).insert(e.id, e.app_id.deep_view()),
{
    let s2 = s.push(e);
    assert forall|i: int, j: int|
        0 <= i < s2.len() && 0 <= j < s2.len() && (s2[i]).id == (s2[j]).id implies i == j by {
        if i < s.len() && j == s.len() {
            assert(s[i].id == e.id);
        } else if i == s.len() && j < s.len() {
            assert(s[j].id == e.id);
        }
    }
    assert(s2[s.len() as int].id == e.id);
    assert forall|k: u32| #[trigger] windows_contains(s2, k) && k != e.id implies
    windows_contains(s, k) && s2[window_index(s2, k)].app_id == s[window_index(s, k)].app_id by {
        let i2 = window_index(s2, k);
        assert(0 <= i2 < s2.len() && s2[i2].id == k);
        assert(i2 < s.len());
        assert(s[i2].id == k);
        let i1 = window_index(s, k);
        assert(0 <= i1 < s.len() && s[i1].id == k);
        assert(i1 == i2);
    }
    assert forall|k: u32| windows_contains(s, k) implies #[trigger] windows_contains(s2, k) by {
        let i = choose|i: int| 0 <= i < s.len() && (#[trigger] s[i]).id == k;
        assert(s2[i].id == k);
    }
    assert(windows_contains(s2, e.id));
    let ie = window_index(s2, e.id);
    assert(0 <= ie < s2.len() && s2[ie].id == e.id);
    assert(ie == s.len() as int);
    assert(windows_view(s2) =~= windows_view(s).insert(e.id, e.app_id.deep_view()));
}

proof fn lemma_windows_update(s: Seq<WindowEntry>, i: int, e: WindowEntry)
    requires
        windows_unique(s),
        0 <= i < s.len(),
        s[i].id == e.id,
    ensures
        windows_unique(s.update(i, e)),
        windows_view(s.update(i, e)) == windows_view(s).insert(e.id, e.app_id.deep_view()),
{
    let s2 = s.update(i, e);
    assert forall|p: int, q: int|
        0 <= p < s2.len() && 0 <= q < s2.len() && (s2[p]).id == (s2[q]).id implies p == q by {
        assert(s2[p].id == s[p].id && s2[q].id == s[q].id);
    }
    assert forall|k: u32| #[trigger] windows_contains(s2, k) implies windows_contains(s, k) by {
        let p = choose|p: int| 0 <= p < s2.len() && (#[trigger] s2[p]).id == k;
        assert(s[p].id == k);
    }
    assert forall|k: u32| windows_contains(s, k) implies #[trigger] windows_contains(s2, k) by {
        let p = choose|p: int| 0 <= p < s.len() && (#[trigger] s[p]).id == k;
        assert(s2[p].id == k);
    }
    assert forall|k: u32| #[trigger] windows_contains(s2, k) && k != e.id implies
    s2[window_index(s2, k)].app_id == s[window_index(s, k)].app_id by {
        let i2 = window_index(s2, k);
        assert(0 <= i2 < s2.len() && s2[i2].id == k);
        assert(i2 != i);
        assert(s[i2].id == k);
        let i1 = window_index(s, k);
        assert(0 <= i1 < s.len() && s[i1].id == k);
        assert(i1 == i2);
    }
    assert(windows_contains(s2, e.id));
    let ie = window_index(s2, e.id);
    assert(0 <= ie < s2.len() && s2[ie].id == e.id);
    assert(s[ie].id == e.id);
    assert(ie == i);
    assert(windows_view(s2) =~= windows_view(s).insert(e.id, e.app_id.deep_view()));
}

proof fn lemma_windows_remove(s: Seq<WindowEntry>, i: int)
    requires
        windows_unique(s),
        0 <= i < s.len(),
    ensures
        windows_unique(s.remove(i)),
        windows_view(s.remove(i)) == windows_view(s).remove(s[i].id),
{
    let s2 = s.remove(i);
    assert forall|p: int, q: int|
        0 <= p < s2.len() && 0 <= q < s2.len() && (s2[p]).id == (s2[q]).id implies p == q by {
        let p0: int = if p < i { p } else { p + 1 };
        let q0: int = if q < i { q } else { q + 1 };
        assert(s2[p] == s[p0] && s2[q] == s[q0]);
    }
    assert forall|k: u32| #[trigger] windows_contains(s2, k) implies
    windows_contains(s, k) && k != s[i].id && s2[window_index(s2, k)].app_id == s[window_index(
        s,
        k,
    )].app_id by {
        let p = choose|p: int| 0 <= p < s2.len() && (#[trigger] s2[p]).id == k;
        let p0: int = if p < i { p } else { p + 1 };
        assert(s2[p] == s[p0]);
        assert(s[p0].id == k);
        assert(p0 != i);
        let i2 = window_index(s2, k);
        assert(0 <= i2 < s2.len() && s2[i2].id == k);
        let i20: int = if i2 < i { i2 } else { i2 + 1 };
        assert(s2[i2] == s[i20]);
        let i1 = window_index(s, k);
        assert(0 <= i1 < s.len() && s[i1].id == k);
        assert(i1 == i20);
    }
    assert forall|k: u32| windows_contains(s, k) && k != s[i].id implies #[trigger] windows_contains(
        s2,
        k,
    ) by {
        let p = choose|p: int| 0 <= p < s.len() && (#[trigger] s[p]).id == k;
        assert(p != i);
        let p2: int = if p < i { p } else { p - 1 };
        assert(s2[p2] == s[p]);
    }
    assert(windows_view(s2) =~= windows_view(s).remove(s[i].id));
}

proof fn lemma_links_push(s: Seq<LinkEntry>, e: LinkEntry)
    requires
        links_unique(s),
        !links_contains(s, e.state_id),
    ensures
        links_unique(s.push(e)),
        links_view(s.push(e)) == links_view(s).insert(e.state_id, e.ext_id),
{
    let s2 = s.push(e);
    assert forall|i: int, j: int|
        0 <= i < s2.len() && 0 <= j < s2.len() && (s2[i]).state_id == (s2[j]).state_id implies i
        == j by {
        if i < s.len() && j == s.len() {
            assert(s[i].state_id == e.state_id);
        } else if i == s.len() && j < s.len() {
            assert(s[j].state_id == e.state_id);
        }
    }
    assert(s2[s.len() as int].state_id == e.state_id);
    assert forall|k: u32| #[trigger] links_contains(s2, k) && k != e.state_id implies
    links_contains(s, k) && s2[link_index(s2, k)].ext_id == s[link_index(s, k)].ext_id by {
        let i2 = link_index(s2, k);
        assert(0 <= i2 < s2.len() && s2[i2].state_id == k);
        assert(i2 < s.len());
        assert(s[i2].state_id == k);
        let i1 = link_index(s, k);
        assert(0 <= i1 < s.len() && s[i1].state_id == k);
        assert(i1 == i2);
    }
    assert forall|k: u32| links_contains(s, k) implies #[trigger] links_contains(s2, k) by {
        let i = choose|i: int| 0 <= i < s.len() && (#[trigger] s[i]).state_id == k;
        assert(s2[i].state_id == k);
    }
    assert(links_contains(s2, e.state_id));
    let ie = link_index(s2, e.state_id);
    assert(0 <= ie < s2.len() && s2[ie].state_id == e.state_id);
    assert(ie == s.len() as int);
    assert(links_view(s2) =~= links_view(s).insert(e.state_id, e.ext_id));
}

proof fn lemma_links_update(s: Seq<LinkEntry>, i: int, e: LinkEntry)
    requires
        links_unique(s),
        0 <= i < s.len(),
        s[i].state_id == e.state_id,
    ensures
        links_unique(s.update(i, e)),
        links_view(s.update(i, e)) == links_view(s).insert(e.state_id, e.ext_id),
{
    let s2 = s.update(i, e);
    assert forall|p: int, q: int|
        0 <= p < s2.len() && 0 <= q < s2.len() && (s2[p]).state_id == (s2[q]).state_id implies p
        == q by {
        assert(s2[p].state_id == s[p].state_id && s2[q].state_id == s[q].state_id);
    }
    assert forall|k: u32| #[trigger] links_contains(s2, k) implies links_contains(s, k) by {
        let p = choose|p: int| 0 <= p < s2.len() && (#[trigger] s2[p]).state_id == k;
        assert(s[p].state_id == k);
    }
    assert forall|k: u32| links_contains(s, k) implies #[trigger] links_contains(s2, k) by {
        let p = choose|p: int| 0 <= p < s.len() && (#[trigger] s[p]).state_id == k;
        assert(s2[p].state_id == k);
    }
    assert forall|k: u32| #[trigger] links_contains(s2, k) && k != e.state_id implies
    s2[link_index(s2, k)].ext_id == s[link_index(s, k)].ext_id by {
        let i2 = link_index(s2, k);
        assert(0 <= i2 < s2.len() && s2[i2].state_id == k);
        assert(i2 != i);
        assert(s[i2].state_id == k);
        let i1 = link_index(s, k);
        assert(0 <= i1 < s.len() && s[i1].state_id == k);
        assert(i1 == i2);
    }
    assert(links_contains(s2, e.state_id));
    let ie = link_index(s2, e.state_id);
    assert(0 <= ie < s2.len() && s2[ie].state_id == e.state_id);
    assert(s[ie].state_id == e.state_id);
    assert(ie == i);
    assert(links_view(s2) =~= links_view(s).insert(e.state_id, e.ext_id));
}

proof fn lemma_links_remove(s: Seq<LinkEntry>, i: int)
    requires
        links_unique(s),
        0 <= i < s.len(),
    ensures
        links_unique(s.remove(i)),
        links_view(s.remove(i)) == links_view(s).remove(s[i].state_id),
{
    let s2 = s.remove(i);
    assert forall|p: int, q: int|
        0 <= p < s2.len() && 0 <= q < s2.len() && (s2[p]).state_id == (s2[q]).state_id implies p
        == q by {
        let p0: int = if p < i { p } else { p + 1 };
        let q0: int = if q < i { q } else { q + 1 };
        assert(s2[p] == s[p0] && s2[q] == s[q0]);
    }
    assert forall|k: u32| #[trigger] links_contains(s2, k) implies
    links_contains(s, k) && k != s[i].state_id && s2[link_index(s2, k)].ext_id == s[link_index(
        s,
        k,
    )].ext_id by {
        let p = choose|p: int| 0 <= p < s2.len() && (#[trigger] s2[p]).state_id == k;
        let p0: int = if p < i { p } else { p + 1 };
        assert(s2[p] == s[p0]);
        assert(s[p0].state_id == k);
        assert(p0 != i);
        let i2 = link_index(s2, k);
        assert(0 <= i2 < s2.len() && s2[i2].state_id == k);
        let i20: int = if i2 < i { i2 } else { i2 + 1 };
        assert(s2[i2] == s[i20]);
        let i1 = link_index(s, k);
        assert(0 <= i1 < s.len() && s[i1].state_id == k);
        assert(i1 == i20);
    }
    assert forall|k: u32| links_contains(s, k) && k != s[i].state_id implies #[trigger] links_contains(
        s2,
        k,
    ) by {
        let p = choose|p: int| 0 <= p < s.len() && (#[trigger] s[p]).state_id == k;
        assert(p != i);
        let p2: int = if p < i { p } else { p - 1 };
        assert(s2[p2] == s[p]);
    }
    assert(links_view(s2) =~= links_view(s).remove(s[i].state_id));
}

/// Decodes a state bitfield: activated exactly when some complete 4-byte
/// little-endian chunk equals `2`.
pub fn is_activated(bits: &Vec<u8>) -> (r: bool)
    ensures
        r == bits_activated(bits@),
{
    let n = bits.len();
    let chunks = n / 4;
    let mut i: usize = 0;
    while i < chunks
        invariant
            n == bits@.len(),
            chunks == n / 4,
            i <= chunks,
            forall|k: int| 0 <= k < i ==> chunk_value(bits@, k) != 2,
        decreases chunks - i,
    {
        proof {
            assert(4 * (i as int) + 3 < n);
        }
        let j = 4 * i;
        let v: u32 = bits[j] as u32 + 256 * (bits[j + 1] as u32) + 65536 * (bits[j + 2] as u32)
            + 16777216 * (bits[j + 3] as u32);
        proof {
            assert(chunk_value(bits@, i as int) == v as int);
        }
        if v == 2 {
            return true;
        }
        i = i + 1;
    }
    proof {
        assert forall|k: int| 0 <= k && 4 * k + 3 < bits@.len() implies chunk_value(bits@, k)
            != 2 by {
            assert(k < n / 4);
        }
    }
    false
}

proof fn lemma_links_filtered_view(s: Seq<LinkEntry>, kept: Seq<LinkEntry>, ext_id: u32)
    requires
        links_unique(s),
        links_unique(kept),
        forall|p: int| 0 <= p < kept.len() ==> (#[trigger] kept[p]).ext_id != ext_id,
        forall|p: int|
            0 <= p < kept.len() ==> links_contains(s, (#[trigger] kept[p]).state_id) && s[
                link_index(s, kept[p].state_id)
            ].ext_id == kept[p].ext_id,
        forall|q: int|
            0 <= q < s.len() && (#[trigger] s[q]).ext_id != ext_id ==> links_contains(
                kept,
                s[q].state_id,
            ),
    ensures
        links_view(kept) == links_view(s).remove_keys(
            links_view(s).dom().filter(|k: u32| links_view(s)[k] == ext_id),
        ),
{
    assert forall|k: u32| #[trigger] links_contains(kept, k) implies links_contains(s, k) && s[
        link_index(s, k)
    ].ext_id != ext_id && kept[link_index(kept, k)].ext_id == s[link_index(s, k)].ext_id by {
        let p = link_index(kept, k);
        assert(0 <= p < kept.len() && kept[p].state_id == k);
        assert(links_contains(s, kept[p].state_id));
        assert(s[link_index(s, kept[p].state_id)].ext_id == kept[p].ext_id);
        assert(kept[p].ext_id != ext_id);
    }
    assert forall|k: u32|
        links_contains(s, k) && s[link_index(s, k)].ext_id != ext_id implies #[trigger] links_contains(
        kept,
        k,
    ) by {
        let q = link_index(s, k);
        assert(0 <= q < s.len() && s[q].state_id == k);
        assert(links_contains(kept, s[q].state_id));
    }
    assert(links_view(kept) =~= links_view(s).remove_keys(
        links_view(s).dom().filter(|k: u32| links_view(s)[k] == ext_id),
    ));
}

/// The tracker state: both object tables, the correlation map and the
/// debounce state, mutated only by [`FocusTracker::handle_event`].
///
/// The protocol handle objects themselves stay with the connection owner;
/// the tracker works on their protocol identifiers alone.
pub struct FocusTracker {
    windows: Vec<WindowEntry>,
    links: Vec<LinkEntry>,
    last_focused: Option<String>,
}

/// The identity string reported while a window's identity event has not
/// arrived.
fn placeholder_string() -> (r: String)
    ensures
        r@ == placeholder_identity(),
{
    "unknown".to_owned()
}

impl View for FocusTracker {
    type V = TrackerView;

    closed spec fn view(&self) -> TrackerView {
        TrackerView {
            windows: windows_view(self.windows@),
            links: links_view(self.links@),
            last_focused: self.last_focused.deep_view(),
        }
    }
}

/// The correlation map points only at windows the discovery table still
/// holds: no dangling bridge entries.
pub open spec fn correlation_consistent(t: TrackerView) -> bool {
    forall|s: u32| #[trigger] t.links.dom().contains(s) ==> t.windows.dom().contains(t.links[s])
}

/// The empty tracker state.
pub open spec fn initial_tracker() -> TrackerView {
    TrackerView { windows: Map::empty(), links: Map::empty(), last_focused: None }
}

impl FocusTracker {
    /// Internal well-formedness: both tables keyed uniquely, and every
    /// correlation entry points at a live discovery-side window.
    pub closed spec fn wf(self) -> bool {
        &&& windows_unique(self.windows@)
        &&& links_unique(self.links@)
        &&& forall|i: int|
            0 <= i < self.links@.len() ==> windows_contains(
                self.windows@,
                (#[trigger] self.links@[i]).ext_id,
            )
    }

    /// An empty tracker: no windows, no correlations, nothing reported yet.
    pub fn new() -> (t: FocusTracker)
        ensures
            t.wf(),
            t@ == initial_tracker(),
    {
        let t = FocusTracker { windows: Vec::new(), links: Vec::new(), last_focused: None };
        proof {
            assert(windows_view(t.windows@) =~= Map::<u32, Option<Seq<char>>>::empty());
            assert(links_view(t.links@) =~= Map::<u32, u32>::empty());
        }
        t
    }

    /// The most recently reported identity, if any.
    pub fn last_focused(&self) -> (r: &Option<String>)
        ensures
            r.deep_view() == self@.last_focused,
    {
        &self.last_focused
    }

    fn find_window(&self, id: u32) -> (r: Option<usize>)
        ensures
            match r {
                Some(i) => i < self.windows@.len() && self.windows@[i as int].id == id,
                None => !windows_contains(self.windows@, id),
            },
    {
        let n = self.windows.len();
        let mut i: usize = 0;
        while i < n
            invariant
                n == self.windows@.len(),
                i <= n,
                forall|k: int| 0 <= k < i ==> (#[trigger] self.windows@[k]).id != id,
            decreases n - i,
        {
            if self.windows[i].id == id {
                return Some(i);
            }
            i = i + 1;
        }
        None
    }

    fn find_link(&self, state_id: u32) -> (r: Option<usize>)
        ensures
            match r {
                Some(i) => i < self.links@.len() && self.links@[i as int].state_id == state_id,
                None => !links_contains(self.links@, state_id),
            },
    {
        let n = self.links.len();
        let mut i: usize = 0;
        while i < n
            invariant
                n == self.links@.len(),
                i <= n,
                forall|k: int| 0 <= k < i ==> (#[trigger] self.links@[k]).state_id != state_id,
            decreases n - i,
        {
            if self.links[i].state_id == state_id {
                return Some(i);
            }
            i = i + 1;
        }
        None
    }

    /// A window was announced and its state-side object requested: retain the
    /// discovery entry and record the bridge between the two identifiers.
    fn handle_discovered(&mut self, ext_id: u32, state_id: u32)
        requires
            old(self).wf(),
        ensures
            final(self).wf(),
            final(self)@ == step(
                old(self)@,
                TrackerEventView::Discovered { ext_id, state_id },
            ).0,
    {
        match self.find_window(ext_id) {
            None => {
                let e = WindowEntry { id: ext_id, app_id: None };
                proof {
                    lemma_windows_push(self.windows@, e);
                }
                self.windows.push(e);
                proof {
                    assert(self.windows@[self.windows@.len() - 1].id == ext_id);
                    assert(windows_contains(self.windows@, ext_id));
                }
            },
            Some(_) => {
                proof {
                    assert(windows_contains(self.windows@, ext_id));
                }
            },
        }
        let le = LinkEntry { state_id, ext_id };
        match self.find_link(state_id) {
            None => {
                proof {
                    lemma_links_push(self.links@, le);
                }
                self.links.push(le);
            },
            Some(i) => {
                proof {
                    lemma_links_update(self.links@, i as int, le);
                }
                self.links[i] = le;
            },
        }
        proof {
            let ow = old(self).windows@;
            let nw = self.windows@;
            assert(windows_contains(nw, ext_id));
            assert forall|x: u32| #[trigger] windows_contains(ow, x) implies windows_contains(
                nw,
                x,
            ) by {
                assert(windows_view(ow).dom().contains(x));
                assert(windows_view(nw).dom().contains(x));
            }
            assert forall|i: int| 0 <= i < self.links@.len() implies windows_contains(
                nw,
                (#[trigger] self.links@[i]).ext_id,
            ) by {
                if self.links@[i].ext_id != ext_id {
                    assert(self.links@[i] == old(self).links@[i]);
                    assert(windows_contains(ow, old(self).links@[i].ext_id));
                }
            }
        }
    }

    /// The discovery protocol reported a window's application identity:
    /// set or overwrite it on the window's entry.
    fn handle_app_id(&mut self, ext_id: u32, app_id: String)
        requires
            old(self).wf(),
        ensures
            final(self).wf(),
            final(self)@ == step(
                old(self)@,
                TrackerEventView::AppIdReceived { ext_id, app_id: app_id@ },
            ).0,
    {
        match self.find_window(ext_id) {
            Some(i) => {
                let e = WindowEntry { id: ext_id, app_id: Some(app_id) };
                proof {
                    assert(windows_contains(self.windows@, ext_id));
                    lemma_windows_update(self.windows@, i as int, e);
                }
                self.windows[i] = e;
            },
            None => {
                proof {
                    assert(!windows_contains(self.windows@, ext_id));
                }
            },
        }
        proof {
            let ow = old(self).windows@;
            let nw = self.windows@;
            assert forall|x: u32| #[trigger] windows_contains(ow, x) implies windows_contains(
                nw,
                x,
            ) by {
                assert(windows_view(ow).dom().contains(x));
                assert(windows_view(nw).dom().contains(x));
            }
            assert forall|i: int| 0 <= i < self.links@.len() implies windows_contains(
                nw,
                (#[trigger] self.links@[i]).ext_id,
            ) by {
                assert(windows_contains(ow, old(self).links@[i].ext_id));
            }
        }
    }

    /// The state-side identifiers currently bridged to this discovery-side
    /// window: what a connection owner must drop when the window closes.
    pub fn linked_state_ids(&self, ext_id: u32) -> (r: Vec<u32>)
        requires
            self.wf(),
        ensures
            forall|p: int|
                0 <= p < r@.len() ==> self@.links.dom().contains(#[trigger] r@[p]) && self@.links[
                    r@[p]
                ] == ext_id,
            forall|s: u32|
                #[trigger] self@.links.dom().contains(s) && self@.links[s] == ext_id
                    ==> r@.contains(s),
    {
        let n = self.links.len();
        let mut out: Vec<u32> = Vec::new();
        let mut i: usize = 0;
        while i < n
            invariant
                n == self.links@.len(),
                i <= n,
                links_unique(self.links@),
                forall|p: int|
                    0 <= p < out@.len() ==> links_contains(self.links@, #[trigger] out@[p])
                        && self.links@[link_index(self.links@, out@[p])].ext_id == ext_id,
                forall|j: int|
                    0 <= j < i && (#[trigger] self.links@[j]).ext_id == ext_id ==> out@.contains(
                        self.links@[j].state_id,
                    ),
            decreases n - i,
        {
            let e = self.links[i];
            if e.ext_id == ext_id {
                let ghost out0 = out@;
                out.push(e.state_id);
                proof {
                    assert(links_contains(self.links@, e.state_id));
                    assert(link_index(self.links@, e.state_id) == i as int);
                    assert(out@[out@.len() - 1] == e.state_id);
                    assert forall|j: int|
                        0 <= j < i + 1 && (#[trigger] self.links@[j]).ext_id == ext_id implies out@.contains(
                        self.links@[j].state_id,
                    ) by {
                        if j < i {
                            let p = choose|p: int|
                                0 <= p < out0.len() && out0[p] == self.links@[j].state_id;
                            assert(out@[p] == self.links@[j].state_id);
                        } else {
                            assert(out@[out@.len() - 1] == self.links@[j].state_id);
                        }
                    }
                }
            }
            i = i + 1;
        }
        proof {
            assert forall|p: int| 0 <= p < out@.len() implies self@.links.dom().contains(
                #[trigger] out@[p],
            ) && self@.links[out@[p]] == ext_id by {
                assert(links_contains(self.links@, out@[p]));
            }
            assert forall|s: u32|
                #[trigger] self@.links.dom().contains(s) && self@.links[s] == ext_id implies out@.contains(
                s,
            ) by {
                assert(links_contains(self.links@, s));
                let j = link_index(self.links@, s);
                assert(0 <= j < self.links@.len() && self.links@[j].state_id == s);
                assert(self.links@[j].ext_id == ext_id);
            }
        }
        out
    }

    /// The discovery protocol closed a window: drop its entry, then scan the
    /// correlation map for entries bridging to it and drop them with their
    /// state-side objects. A close for an absent window is a no-op.
    fn handle_discovery_closed(&mut self, ext_id: u32)
        requires
            old(self).wf(),
        ensures
            final(self).wf(),
            final(self)@ == step(old(self)@, TrackerEventView::DiscoveryClosed { ext_id }).0,
    {
        match self.find_window(ext_id) {
            Some(i) => {
                proof {
                    lemma_windows_remove(self.windows@, i as int);
                }
                self.windows.remove(i);
            },
            None => {
                proof {
                    assert(!windows_contains(self.windows@, ext_id));
                    assert(windows_view(self.windows@) =~= windows_view(self.windows@).remove(
                        ext_id,
                    ));
                }
            },
        }
        let n = self.links.len();
        let mut kept: Vec<LinkEntry> = Vec::new();
        let mut idx: usize = 0;
        while idx < n
            invariant
                n == self.links@.len(),
                idx <= n,
                links_unique(self.links@),
                links_unique(kept@),
                forall|p: int| 0 <= p < kept@.len() ==> (#[trigger] kept@[p]).ext_id != ext_id,
                forall|p: int|
                    0 <= p < kept@.len() ==> links_contains(
                        self.links@,
                        (#[trigger] kept@[p]).state_id,
                    ) && self.links@[link_index(self.links@, kept@[p].state_id)].ext_id == kept@[
                        p
                    ].ext_id && link_index(self.links@, kept@[p].state_id) < idx,
                forall|q: int|
                    0 <= q < idx && (#[trigger] self.links@[q]).ext_id != ext_id
                        ==> links_contains(kept@, self.links@[q].state_id),
            decreases n - idx,
        {
            let e = self.links[idx];
            if e.ext_id != ext_id {
                proof {
                    assert forall|p: int|
                        0 <= p < kept@.len() implies (#[trigger] kept@[p]).state_id
                        != e.state_id by {
                        let q = link_index(self.links@, kept@[p].state_id);
                        assert(0 <= q < self.links@.len() && self.links@[q].state_id == kept@[
                            p
                        ].state_id);
                        if kept@[p].state_id == e.state_id {
                            assert(q == idx as int);
                            assert(self.links@[q].ext_id == kept@[p].ext_id);
                        }
                    }
                }
                let ghost kept0 = kept@;
                kept.push(e);
                proof {
                    assert(kept@[kept@.len() - 1] == self.links@[idx as int]);
                    assert forall|q: int|
                        0 <= q < idx && (#[trigger] self.links@[q]).ext_id != ext_id implies
                    links_contains(kept@, self.links@[q].state_id) by {
                        let p = link_index(kept0, self.links@[q].state_id);
                        assert(0 <= p < kept0.len() && kept0[p].state_id
                            == self.links@[q].state_id);
                        assert(kept@[p].state_id == self.links@[q].state_id);
                    }
                    assert(links_contains(self.links@, e.state_id));
                    assert(link_index(self.links@, e.state_id) == idx as int);
                }
            }
            idx = idx + 1;
        }
        proof {
            lemma_links_filtered_view(self.links@, kept@, ext_id);
        }
        self.links = kept;
        proof {
            let ow = old(self).windows@;
            let nw = self.windows@;
            assert forall|j: int| 0 <= j < self.links@.len() implies windows_contains(
                nw,
                (#[trigger] self.links@[j]).ext_id,
            ) by {
                let q = link_index(old(self).links@, self.links@[j].state_id);
                assert(0 <= q < old(self).links@.len() && old(self).links@[q].ext_id == self.links@[
                    j
                ].ext_id);
                assert(windows_contains(ow, old(self).links@[q].ext_id));
                assert(windows_view(ow).dom().contains(self.links@[j].ext_id));
                assert(windows_view(nw) == windows_view(ow).remove(ext_id));
                assert(windows_view(nw).dom().contains(self.links@[j].ext_id));
            }
        }
    }

    /// The identity an activation of `state_id` resolves to right now.
    fn resolve_app(&self, state_id: u32) -> (r: String)
        requires
            self.wf(),
        ensures
            r@ == resolved_identity(self@, state_id),
    {
        match self.find_link(state_id) {
            None => {
                proof {
                    assert(!links_contains(self.links@, state_id));
                }
                placeholder_string()
            },
            Some(i) => {
                proof {
                    assert(links_contains(self.links@, state_id));
                    let li = link_index(self.links@, state_id);
                    assert(0 <= li < self.links@.len() && self.links@[li].state_id == state_id);
                    assert(li == i as int);
                }
                let ext_id = self.links[i].ext_id;
                match self.find_window(ext_id) {
                    None => placeholder_string(),
                    Some(j) => {
                        proof {
                            assert(windows_contains(self.windows@, ext_id));
                            let wi = window_index(self.windows@, ext_id);
                            assert(0 <= wi < self.windows@.len() && self.windows@[wi].id
                                == ext_id);
                            assert(wi == j as int);
                        }
                        let entry = &self.windows[j];
                        match &entry.app_id {
                            None => placeholder_string(),
                            Some(app) => app.clone(),
                        }
                    },
                }
            },
        }
    }

    /// The state protocol reported a bitfield: if it marks the window
    /// activated and the resolved identity differs from the last reported
    /// one, record it and return it; otherwise stay silent.
    fn handle_state_changed(&mut self, state_id: u32, state_bits: Vec<u8>) -> (r: Option<String>)
        requires
            old(self).wf(),
        ensures
            final(self).wf(),
            final(self)@ == step(
                old(self)@,
                TrackerEventView::StateChanged { state_id, state_bits: state_bits@ },
            ).0,
            r.deep_view() == step(
                old(self)@,
                TrackerEventView::StateChanged { state_id, state_bits: state_bits@ },
            ).1,
    {
        if !is_activated(&state_bits) {
            return None;
        }
        let app = self.resolve_app(state_id);
        let same = match &self.last_focused {
            Some(prev) => prev.eq(&app),
            None => false,
        };
        if same {
            return None;
        }
        self.last_focused = Some(app.clone());
        Some(app)
    }

    /// The state protocol closed a window: drop its correlation entry. The
    /// last reported identity is not retracted. A close for an absent entry
    /// is a no-op.
    fn handle_state_closed(&mut self, state_id: u32)
        requires
            old(self).wf(),
        ensures
            final(self).wf(),
            final(self)@ == step(old(self)@, TrackerEventView::StateClosed { state_id }).0,
    {
        match self.find_link(state_id) {
            Some(i) => {
                proof {
                    lemma_links_remove(self.links@, i as int);
                }
                self.links.remove(i);
                proof {
                    assert forall|j: int| 0 <= j < self.links@.len() implies windows_contains(
                        self.windows@,
                        (#[trigger] self.links@[j]).ext_id,
                    ) by {
                        let j0: int = if j < i as int { j } else { j + 1 };
                        assert(self.links@[j] == old(self).links@[j0]);
                    }
                }
            },
            None => {
                proof {
                    assert(!links_contains(self.links@, state_id));
                    assert(links_view(self.links@) =~= links_view(self.links@).remove(state_id));
                }
            },
        }
    }

    /// Dispatches one protocol event and returns the notification to emit,
    /// if any: the new focused identity, exactly when it changed.
    pub fn handle_event(&mut self, event: TrackerEvent) -> (r: Option<String>)
        requires
            old(self).wf(),
        ensures
            final(self).wf(),
            final(self)@ == step(old(self)@, event@).0,
            r.deep_view() == step(old(self)@, event@).1,
    {
        match event {
            TrackerEvent::Discovered { ext_id, state_id } => {
                self.handle_discovered(ext_id, state_id);
                None
            },
            TrackerEvent::AppIdReceived { ext_id, app_id } => {
                self.handle_app_id(ext_id, app_id);
                None
            },
            TrackerEvent::DiscoveryClosed { ext_id } => {
                self.handle_discovery_closed(ext_id);
                None
            },
            TrackerEvent::StateChanged { state_id, state_bits } => self.handle_state_changed(
                state_id,
                state_bits,
            ),
            TrackerEvent::StateClosed { state_id } => {
                self.handle_state_closed(state_id);
                None
            },
        }
    }
}

/// Law: the correlation map never dangles. From any state whose correlation
/// entries all point at live discovery-side windows, every event leads to a
/// state with the same property: a closed window's bridge entries are
/// removed in the same step.
pub proof fn lemma_step_preserves_correlation(t: TrackerView, e: TrackerEventView)
    requires
        correlation_consistent(t),
    ensures
        correlation_consistent(step(t, e).0),
{
    let t2 = step(t, e).0;
    match e {
        TrackerEventView::Discovered { ext_id, state_id } => {
            assert forall|s: u32| #[trigger] t2.links.dom().contains(s) implies t2.windows.dom().contains(
                t2.links[s],
            ) by {
                if s != state_id {
                    assert(t.links.dom().contains(s));
                }
            }
        },
        TrackerEventView::AppIdReceived { ext_id, app_id } => {
            assert forall|s: u32| #[trigger] t2.links.dom().contains(s) implies t2.windows.dom().contains(
                t2.links[s],
            ) by {
                assert(t.links.dom().contains(s));
            }
        },
        TrackerEventView::DiscoveryClosed { ext_id } => {
            assert forall|s: u32| #[trigger] t2.links.dom().contains(s) implies t2.windows.dom().contains(
                t2.links[s],
            ) by {
                assert(t.links.dom().contains(s));
                assert(!t.links.dom().filter(|k: u32| t.links[k] == ext_id).contains(s));
                assert(t.links[s] != ext_id);
            }
        },
        TrackerEventView::StateChanged { state_id, state_bits } => {
            assert(t2.links == t.links && t2.windows == t.windows);
        },
        TrackerEventView::StateClosed { state_id } => {
            assert forall|s: u32| #[trigger] t2.links.dom().contains(s) implies t2.windows.dom().contains(
                t2.links[s],
            ) by {
                assert(t.links.dom().contains(s));
            }
        },
    }
}

/// One run of the tracker: a sequence of events applied in order.
pub open spec fn run_events(t: TrackerView, events: Seq<TrackerEventView>) -> TrackerView
    decreases events.len(),
{
    if events.len() == 0 {
        t
    } else {
        run_events(step(t, events[0]).0, events.drop_first())
    }
}

/// The empty tracker satisfies the correlation invariant.
pub proof fn lemma_initial_correlation()
    ensures
        correlation_consistent(initial_tracker()),
{
}

/// Law: under every sequence of discovery and state events, from any
/// consistent starting state — the empty tracker included — the
/// correlation map never contains a state identifier whose discovery
/// identifier is absent from the window table.
pub proof fn lemma_run_preserves_correlation(t: TrackerView, events: Seq<TrackerEventView>)
    requires
        correlation_consistent(t),
    ensures
        correlation_consistent(run_events(t, events)),
    decreases events.len(),
{
    if events.len() > 0 {
        lemma_step_preserves_correlation(t, events[0]);
        lemma_run_preserves_correlation(step(t, events[0]).0, events.drop_first());
    }
}

impl FocusTracker {
    /// A well-formed tracker's view satisfies the correlation invariant:
    /// what `handle_event` maintains at the representation level holds of
    /// the mathematical view as well.
    pub proof fn lemma_wf_correlation(&self)
        requires
            self.wf(),
        ensures
            correlation_consistent(self@),
    {
        assert forall|s: u32| #[trigger] self@.links.dom().contains(s) implies self@.windows.dom().contains(
            self@.links[s],
        ) by {
            assert(links_contains(self.links@, s));
            let i = link_index(self.links@, s);
            assert(0 <= i < self.links@.len() && self.links@[i].state_id == s);
            assert(windows_contains(self.windows@, self.links@[i].ext_id));
        }
    }
}

/// Law (debounce idempotence): once an activation has been processed, a
/// second activation resolving to the same identity emits nothing — for any
/// pair of consecutive activation events, the callback fires at most once
/// per identity.
pub proof fn lemma_debounce(t: TrackerView, s1: u32, b1: Seq<u8>, s2: u32, b2: Seq<u8>)
    requires
        bits_activated(b1),
        resolved_identity(t, s2) == resolved_identity(t, s1),
    ensures
        step(
            step(t, TrackerEventView::StateChanged { state_id: s1, state_bits: b1 }).0,
            TrackerEventView::StateChanged { state_id: s2, state_bits: b2 },
        ).1 is None,
{
    let t1 = step(t, TrackerEventView::StateChanged { state_id: s1, state_bits: b1 }).0;
    assert(t1.windows == t.windows && t1.links == t.links);
    assert(t1.last_focused == Some(resolved_identity(t, s1)));
    assert(resolved_identity(t1, s2) == resolved_identity(t, s2));
}

/// Law (close order-independence): closing a window's discovery side and
/// its state side leads to the same tracker state in either order, for any
/// pair of identifiers.
pub proof fn lemma_close_order_independent(t: TrackerView, ext_id: u32, state_id: u32)
    ensures
        step(
            step(t, TrackerEventView::DiscoveryClosed { ext_id }).0,
            TrackerEventView::StateClosed { state_id },
        ).0 == step(
            step(t, TrackerEventView::StateClosed { state_id }).0,
            TrackerEventView::DiscoveryClosed { ext_id },
        ).0,
{
    let a = step(
        step(t, TrackerEventView::DiscoveryClosed { ext_id }).0,
        TrackerEventView::StateClosed { state_id },
    ).0;
    let b = step(
        step(t, TrackerEventView::StateClosed { state_id }).0,
        TrackerEventView::DiscoveryClosed { ext_id },
    ).0;
    assert(a.windows =~= b.windows);
    assert forall|k: u32| a.links.dom().contains(k) <==> b.links.dom().contains(k) by {
        let t1 = step(t, TrackerEventView::StateClosed { state_id }).0;
        assert(t1.links.dom().contains(k) ==> t1.links[k] == t.links[k]);
    }
    assert forall|k: u32| #[trigger] a.links.dom().contains(k) implies a.links[k] == b.links[k] by {
    }
    assert(a.links =~= b.links);
    assert(a =~= b);
}

} // verus!
