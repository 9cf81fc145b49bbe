//! Transient, controller-local keyboard sources. Never saved with a creation.

use vstd::prelude::*;

use crate::drive::DriveKey;
use crate::graph::ConstructionGraph;
use crate::ids::PartId;
use crate::ordered::{lemma_take_next, OrderedMap, OrderedSet, Ranked};
use crate::parts::{ButtonMode, PartShape};

verus! {

/// A key on one controller.
#[derive(Clone, Copy, Debug, PartialEq, Eq, PartialOrd, Ord, Hash, Structural)]
pub struct ControllerKey {
    pub controller: PartId,
    pub key: DriveKey,
}

impl Ranked for ControllerKey {
    /// Controllers first, then keys.
    open spec fn rank(self) -> int {
        self.controller.rank() * 256 + self.key.code()
    }

    proof fn rank_identifies(a: Self, b: Self) {
        PartId::rank_identifies(a.controller, b.controller);
        DriveKey::lemma_code(a.key, b.key);
    }

    fn precedes(self, other: Self) -> (before: bool) {
        proof {
            if self.controller.rank() == other.controller.rank() {
                PartId::rank_identifies(self.controller, other.controller);
            }
        }
        if self.controller != other.controller {
            self.controller.precedes(other.controller)
        } else {
            self.key.precedes(other.key)
        }
    }
}

/// What a pressed button contributes.
#[derive(Clone, Copy, Debug, PartialEq, Eq, Structural)]
pub struct ButtonSource {
    pub controller: PartId,
    pub key: DriveKey,
    pub mode: ButtonMode,
}

/// What a button would contribute: nothing unless it is a live button with a
/// controller and a key.
pub open spec fn source_of(graph: &ConstructionGraph, button: PartId) -> Option<ButtonSource> {
    if graph.has_part(button) && graph.parts.rows@[button].shape is Button
        && graph.inputs@.dom().contains(button) && graph.inputs@[button].controller is Some
        && graph.inputs@[button].key is Some {
        Some(
            ButtonSource {
                controller: graph.inputs@[button].controller->0,
                key: graph.inputs@[button].key->0,
                mode: graph.inputs@[button].button_mode,
            },
        )
    } else {
        None
    }
}

/// What a button would contribute.
fn button_source(graph: &ConstructionGraph, button: PartId) -> (source: Option<ButtonSource>)
    requires
        graph.wf(),
    ensures
        source == source_of(graph, button),
{
    match graph.part(button) {
        Some(spec) => match spec.shape {
            PartShape::Button { .. } => {},
            _ => {
                return None;
            },
        },
        None => {
            return None;
        },
    }
    match graph.inputs.get(button) {
        Some(config) => match (config.controller, config.key) {
            (Some(controller), Some(key)) => Some(
                ButtonSource { controller, key, mode: config.button_mode },
            ),
            _ => None,
        },
        None => None,
    }
}

/// A controller key after combining every keyboard and physical source.
#[derive(Debug, PartialEq, Eq)]
pub struct ControllerKeys {
    /// Keys that some source holds.
    pub held: OrderedSet<ControllerKey>,
    /// Keys that became held in the last update.
    pub pressed: OrderedSet<ControllerKey>,
    /// Keys that ceased to be held in the last update.
    pub released: OrderedSet<ControllerKey>,
    /// Sources of pressed and latched buttons.
    pub buttons: OrderedMap<PartId, ButtonSource>,
}

/// Whether a button in `buttons` contributes `key`.
pub open spec fn contributed(buttons: Map<PartId, ButtonSource>, key: ControllerKey) -> bool {
    exists|button: PartId| #[trigger]
        buttons.dom().contains(button) && buttons[button].controller == key.controller
            && buttons[button].key == key.key
}

/// The sources that are still what their button would contribute.
pub open spec fn valid_sources(
    graph: &ConstructionGraph,
    buttons: Map<PartId, ButtonSource>,
) -> Map<PartId, ButtonSource> {
    Map::new(
        |button: PartId|
            buttons.dom().contains(button) && source_of(graph, button) == Some(buttons[button]),
        |button: PartId| buttons[button],
    )
}

/// The sources after a button is pressed.
pub open spec fn after_press(
    graph: &ConstructionGraph,
    buttons: Map<PartId, ButtonSource>,
    button: PartId,
) -> Map<PartId, ButtonSource> {
    match source_of(graph, button) {
        None => buttons,
        Some(source) => if source.mode is Toggle && buttons.dom().contains(button)
            && buttons[button] == source {
            buttons.remove(button)
        } else {
            buttons.insert(button, source)
        },
    }
}

/// Pressing a toggle twice leaves its latch as it was, if it was its own or none.
pub proof fn pressing_a_toggle_twice_restores_it(
    graph: &ConstructionGraph,
    buttons: Map<PartId, ButtonSource>,
    button: PartId,
)
    requires
        source_of(graph, button) is Some,
        source_of(graph, button)->0.mode is Toggle,
        buttons.dom().contains(button) ==> buttons[button] == source_of(graph, button)->0,
    ensures
        after_press(graph, after_press(graph, buttons, button), button) == buttons,
{
    assert(after_press(graph, after_press(graph, buttons, button), button) =~= buttons);
}

impl Default for ControllerKeys {
    /// No source, and no history.
    fn default() -> (keys: Self)
        ensures
            keys.wf(),
            keys.held@.len() == 0,
            keys.pressed@.len() == 0,
            keys.released@.len() == 0,
            keys.buttons@ == Map::<PartId, ButtonSource>::empty(),
    {
        ControllerKeys::new()
    }
}

impl ControllerKeys {
    /// Collections keep their order.
    pub open spec fn wf(&self) -> bool {
        &&& self.held.wf()
        &&& self.pressed.wf()
        &&& self.released.wf()
        &&& self.buttons.wf()
    }

    /// No source, and no history.
    pub fn new() -> (keys: Self)
        ensures
            keys.wf(),
            keys.held@.len() == 0,
            keys.pressed@.len() == 0,
            keys.released@.len() == 0,
            keys.buttons@ == Map::<PartId, ButtonSource>::empty(),
    {
        ControllerKeys {
            held: OrderedSet::new(),
            pressed: OrderedSet::new(),
            released: OrderedSet::new(),
            buttons: OrderedMap::new(),
        }
    }

    /// Presses a button's own source; a toggle changes only its own latch.
    pub fn press_button(&mut self, graph: &ConstructionGraph, button: PartId)
        requires
            old(self).wf(),
            graph.wf(),
        ensures
            final(self).wf(),
            final(self).buttons@ == after_press(graph, old(self).buttons@, button),
            final(self).held == old(self).held,
            final(self).pressed == old(self).pressed,
            final(self).released == old(self).released,
    {
        let source: ButtonSource = match button_source(graph, button) {
            Some(source) => source,
            None => {
                return;
            },
        };
        let latched: bool = match self.buttons.get(button) {
            Some(current) => *current == source,
            None => false,
        };
        if source.mode == ButtonMode::Toggle && latched {
            self.buttons.remove(button);
        } else {
            self.buttons.insert(button, source);
        }
    }

    /// Releases or cancels a momentary interaction, leaving toggle latches alone.
    pub fn release_button(&mut self, button: PartId)
        requires
            old(self).wf(),
        ensures
            final(self).wf(),
            final(self).buttons@ == (if old(self).buttons@.dom().contains(button)
                && old(self).buttons@[button].mode is Momentary {
                old(self).buttons@.remove(button)
            } else {
                old(self).buttons@
            }),
            final(self).held == old(self).held,
            final(self).pressed == old(self).pressed,
            final(self).released == old(self).released,
    {
        let momentary: bool = match self.buttons.get(button) {
            Some(source) => source.mode == ButtonMode::Momentary,
            None => false,
        };
        if momentary {
            self.buttons.remove(button);
        }
    }

    /// Drops the sources that are no longer what their button would contribute.
    fn drop_stale(&mut self, graph: &ConstructionGraph)
        requires
            old(self).wf(),
            graph.wf(),
        ensures
            final(self).wf(),
            final(self).buttons@ == valid_sources(graph, old(self).buttons@),
            final(self).held == old(self).held,
            final(self).pressed == old(self).pressed,
            final(self).released == old(self).released,
    {
        let ghost before = self.buttons;
        let mut kept: OrderedMap<PartId, ButtonSource> = OrderedMap::new();
        let mut i: usize = 0;
        while i < self.buttons.keys.len()
            invariant
                graph.wf(),
                before.wf(),
                self.buttons == before,
                kept.wf(),
                i <= before.keys@.len(),
                forall|button: PartId| #[trigger]
                    kept@.dom().contains(button) <==> before.keys@.take(i as int).contains(button)
                        && source_of(graph, button) == Some(before@[button]),
                forall|button: PartId| #[trigger]
                    kept@.dom().contains(button) ==> kept@[button] == before@[button],
            decreases before.keys@.len() - i,
        {
            let button: PartId = self.buttons.keys[i];
            let source: ButtonSource = self.buttons.values[i];
            proof {
                before.lemma_index(i as int);
                lemma_take_next(before.keys@, i as int);
            }
            let valid: bool = match button_source(graph, button) {
                Some(current) => current == source,
                None => false,
            };
            if valid {
                kept.insert(button, source);
            }
            i += 1;
        }
        assert(before.keys@.take(i as int) =~= before.keys@);
        assert(kept@ =~= valid_sources(graph, before@));
        self.buttons = kept;
    }

    /// Adds the keys that pressed and latched buttons contribute.
    fn add_contributed(&self, held: &mut OrderedSet<ControllerKey>)
        requires
            self.wf(),
            old(held).wf(),
        ensures
            final(held).wf(),
            forall|key: ControllerKey| #[trigger]
                final(held).holds(key) <==> old(held).holds(key) || contributed(self.buttons@, key),
    {
        let ghost keys = self.buttons.keys@;
        let mut i: usize = 0;
        while i < self.buttons.keys.len()
            invariant
                self.wf(),
                keys == self.buttons.keys@,
                held.wf(),
                i <= keys.len(),
                forall|key: ControllerKey| #[trigger]
                    held.holds(key) <==> old(held).holds(key) || exists|k: int|
                        0 <= k < i && #[trigger] self.buttons.values@[k].controller
                            == key.controller && self.buttons.values@[k].key == key.key,
            decreases keys.len() - i,
        {
            let source: ButtonSource = self.buttons.values[i];
            let added = ControllerKey { controller: source.controller, key: source.key };
            let ghost before = *held;
            held.insert(added);
            proof {
                assert forall|key: ControllerKey| #[trigger] held.holds(key) <==> old(held).holds(key)
                    || exists|k: int|
                    0 <= k < i + 1 && #[trigger] self.buttons.values@[k].controller
                        == key.controller && self.buttons.values@[k].key == key.key by {
                    assert(before.holds(key) <==> old(held).holds(key) || exists|k: int|
                        0 <= k < i && #[trigger] self.buttons.values@[k].controller
                            == key.controller && self.buttons.values@[k].key == key.key);
                    assert(self.buttons.values@[i as int] == source);
                    if key == added {
                        assert(self.buttons.values@[i as int].controller == key.controller);
                    }
                }
            }
            i += 1;
        }
        proof {
            assert forall|key: ControllerKey| #[trigger] held.holds(key) <==> old(held).holds(key)
                || contributed(self.buttons@, key) by {
                if contributed(self.buttons@, key) {
                    let button = choose|button: PartId| #[trigger]
                        self.buttons@.dom().contains(button) && self.buttons@[button].controller
                            == key.controller && self.buttons@[button].key == key.key;
                    let k = keys.index_of(button);
                    assert(self.buttons.values@[k].controller == key.controller);
                }
                if exists|k: int|
                    0 <= k < i && #[trigger] self.buttons.values@[k].controller == key.controller
                        && self.buttons.values@[k].key == key.key {
                    let k = choose|k: int|
                        0 <= k < i && #[trigger] self.buttons.values@[k].controller
                            == key.controller && self.buttons.values@[k].key == key.key;
                    self.buttons.lemma_index(k);
                    assert(self.buttons@.dom().contains(keys[k]));
                }
            }
        }
    }

    /// Combines current seated keys and valid button sources, emitting logical edges.
    /// Changed keys, modes, deleted parts and disconnected controllers lose their sources.
    pub fn update(&mut self, graph: &ConstructionGraph, keyboard: &[ControllerKey])
        requires
            old(self).wf(),
            graph.wf(),
        ensures
            final(self).wf(),
            final(self).buttons@ == valid_sources(graph, old(self).buttons@),
            forall|key: ControllerKey| #[trigger]
                final(self).held.holds(key) <==> (keyboard@.contains(key) && graph.controller_live(
                    key.controller,
                )) || contributed(final(self).buttons@, key),
            forall|key: ControllerKey| #[trigger]
                final(self).pressed.holds(key) <==> final(self).held.holds(key)
                    && !old(self).held.holds(key),
            forall|key: ControllerKey| #[trigger]
                final(self).released.holds(key) <==> old(self).held.holds(key)
                    && !final(self).held.holds(key),
    {
        self.drop_stale(graph);
        let mut held: OrderedSet<ControllerKey> = OrderedSet::new();
        let mut i: usize = 0;
        while i < keyboard.len()
            invariant
                graph.wf(),
                held.wf(),
                i <= keyboard@.len(),
                forall|key: ControllerKey| #[trigger]
                    held.holds(key) <==> keyboard@.take(i as int).contains(key)
                        && graph.controller_live(key.controller),
            decreases keyboard@.len() - i,
        {
            proof {
                lemma_take_next(keyboard@, i as int);
            }
            if graph.is_controller(keyboard[i].controller) {
                held.insert(keyboard[i]);
            }
            i += 1;
        }
        assert(keyboard@.take(i as int) =~= keyboard@);
        self.add_contributed(&mut held);
        let pressed: OrderedSet<ControllerKey> = difference(&held, &self.held);
        let released: OrderedSet<ControllerKey> = difference(&self.held, &held);
        self.pressed = pressed;
        self.released = released;
        self.held = held;
    }

    /// Whether any source holds this key on this controller.
    pub fn held(&self, controller: PartId, key: DriveKey) -> (held: bool)
        requires
            self.wf(),
        ensures
            held == self.held.holds(ControllerKey { controller, key }),
    {
        self.held.contains(ControllerKey { controller, key })
    }

    /// Whether a physical button contributes this key, independent of keyboard modifiers.
    pub fn button_held(&self, controller: PartId, key: DriveKey) -> (held: bool)
        requires
            self.wf(),
        ensures
            held == contributed(self.buttons@, ControllerKey { controller, key }),
    {
        let mut buttons: OrderedSet<ControllerKey> = OrderedSet::new();
        self.add_contributed(&mut buttons);
        buttons.contains(ControllerKey { controller, key })
    }

    /// Whether the combined key changed from released to held this update.
    pub fn pressed(&self, controller: PartId, key: DriveKey) -> (pressed: bool)
        requires
            self.wf(),
        ensures
            pressed == self.pressed.holds(ControllerKey { controller, key }),
    {
        self.pressed.contains(ControllerKey { controller, key })
    }

    /// Whether the final held source released this update.
    pub fn released(&self, controller: PartId, key: DriveKey) -> (released: bool)
        requires
            self.wf(),
        ensures
            released == self.released.holds(ControllerKey { controller, key }),
    {
        self.released.contains(ControllerKey { controller, key })
    }

    /// Every currently held controller and key pair in stable order.
    pub fn held_keys(&self) -> (keys: Vec<ControllerKey>)
        ensures
            keys@ == self.held@,
    {
        self.held.to_vec()
    }

    /// Clears latches and keyboard history on simulation reset.
    pub fn reset(&mut self)
        ensures
            final(self).wf(),
            final(self).held@.len() == 0,
            final(self).pressed@.len() == 0,
            final(self).released@.len() == 0,
            final(self).buttons@ == Map::<PartId, ButtonSource>::empty(),
    {
        *self = Self::new();
    }
}

/// The members of `left` that `right` lacks.
fn difference(left: &OrderedSet<ControllerKey>, right: &OrderedSet<ControllerKey>) -> (rest:
    OrderedSet<ControllerKey>)
    requires
        right.wf(),
    ensures
        rest.wf(),
        forall|key: ControllerKey| #[trigger]
            rest.holds(key) <==> left.holds(key) && !right.holds(key),
{
    let mut rest: OrderedSet<ControllerKey> = OrderedSet::new();
    let mut i: usize = 0;
    while i < left.len()
        invariant
            right.wf(),
            rest.wf(),
            i <= left@.len(),
            forall|key: ControllerKey| #[trigger]
                rest.holds(key) <==> left@.take(i as int).contains(key) && !right.holds(key),
        decreases left@.len() - i,
    {
        proof {
            lemma_take_next(left@, i as int);
        }
        if !right.contains(left.item(i)) {
            rest.insert(left.item(i));
        }
        i += 1;
    }
    assert(left@.take(i as int) =~= left@);
    rest
}

/// A live button with a Controller and a key contributes that key to that
/// Controller, in its own mode; nothing else contributes anything.
pub proof fn buttons_contribute_their_own_key(graph: &ConstructionGraph, button: PartId)
    ensures
        source_of(graph, button) is Some <==> {
            &&& graph.parts.rows@.dom().contains(button)
            &&& graph.parts.rows@[button].shape is Button
            &&& graph.inputs@.dom().contains(button)
            &&& graph.inputs@[button].controller is Some
            &&& graph.inputs@[button].key is Some
        },
        source_of(graph, button) matches Some(source) ==> {
            &&& graph.inputs@[button].controller == Some(source.controller)
            &&& graph.inputs@[button].key == Some(source.key)
            &&& graph.inputs@[button].button_mode == source.mode
        },
{
}

/// Pressing a button leaves every other source alone. Afterwards its key is
/// contributed, unless the press let go of its own latch; a press of a button
/// that contributes nothing changes nothing.
pub proof fn a_press_concerns_its_own_button(
    graph: &ConstructionGraph,
    buttons: Map<PartId, ButtonSource>,
    button: PartId,
    other: PartId,
)
    ensures
        ({
            let after = after_press(graph, buttons, button);
            &&& other != button ==> (after.dom().contains(other) <==> buttons.dom().contains(other))
            &&& other != button && buttons.dom().contains(other) ==> after[other] == buttons[other]
            &&& source_of(graph, button) is None ==> after == buttons
            &&& source_of(graph, button) matches Some(source) ==> {
                let key = ControllerKey { controller: source.controller, key: source.key };
                let latched = buttons.dom().contains(button) && buttons[button] == source;
                &&& source.mode is Momentary ==> after.dom().contains(button) && after[button]
                    == source && contributed(after, key)
                &&& source.mode is Toggle && !latched ==> after.dom().contains(button)
                    && after[button] == source && contributed(after, key)
                &&& source.mode is Toggle && latched ==> !after.dom().contains(button)
            }
        }),
{
    let after = after_press(graph, buttons, button);
    if after.dom().contains(button) {
        assert(after.dom().contains(button));
    }
}

/// An update keeps exactly the sources that are still what their button would
/// contribute, each as it was, and a second one keeps them all.
pub proof fn updates_drop_only_stale_sources(
    graph: &ConstructionGraph,
    buttons: Map<PartId, ButtonSource>,
    button: PartId,
)
    ensures
        ({
            let kept = valid_sources(graph, buttons);
            &&& kept.dom().contains(button) <==> buttons.dom().contains(button) && source_of(
                graph,
                button,
            ) == Some(buttons[button])
            &&& kept.dom().contains(button) ==> kept[button] == buttons[button]
            &&& valid_sources(graph, kept) == kept
        }),
{
    let kept = valid_sources(graph, buttons);
    assert(valid_sources(graph, kept) =~= kept);
}

/// Keys are listed by their Controller first and by their character then, and
/// two keys share a place only if they are one.
pub proof fn keys_are_listed_by_controller_then_character(a: ControllerKey, b: ControllerKey)
    ensures
        a.controller.rank() < b.controller.rank() ==> a.rank() < b.rank(),
        a.controller == b.controller ==> (a.rank() < b.rank() <==> a.key.code() < b.key.code()),
        a.rank() == b.rank() ==> a == b,
{
    if a.rank() == b.rank() {
        ControllerKey::rank_identifies(a, b);
    }
}

/// A key is contributed when some button contributes it to its Controller: one
/// more button adds its own key there and no other.
pub proof fn one_more_button_adds_its_own_key(
    buttons: Map<PartId, ButtonSource>,
    button: PartId,
    source: ButtonSource,
    key: ControllerKey,
)
    requires
        !buttons.dom().contains(button),
    ensures
        contributed(buttons.insert(button, source), key) <==> contributed(buttons, key) || (
        source.controller == key.controller && source.key == key.key),
        !contributed(Map::<PartId, ButtonSource>::empty(), key),
{
    let more = buttons.insert(button, source);
    if contributed(buttons, key) {
        let held = choose|held: PartId| #[trigger]
            buttons.dom().contains(held) && buttons[held].controller == key.controller
                && buttons[held].key == key.key;
        assert(more.dom().contains(held) && more[held] == buttons[held]);
    }
    if source.controller == key.controller && source.key == key.key {
        assert(more.dom().contains(button));
    }
    if contributed(more, key) {
        let held = choose|held: PartId| #[trigger]
            more.dom().contains(held) && more[held].controller == key.controller
                && more[held].key == key.key;
        if held != button {
            assert(buttons.dom().contains(held) && buttons[held] == more[held]);
        }
    }
}

} // verus!
