//! Bookkeeping of global hotkey registrations: which physical key
//! combinations are taken, and under which registration id.
use crate::config::{Config, SoundConfig};
use crate::hotkey::{
    contains_modifier, parse_hotkey, parse_spec, Hotkey, HotkeyError, HotkeySpec, Key, Modifier,
};
use vstd::prelude::*;

verus! {

/// One registered combination: its modifiers as a bit mask, and its key.
#[derive(Clone, Copy, Debug, PartialEq, Eq, Structural)]
pub struct Binding {
    pub id: u64,
    pub mask: u8,
    pub key: Key,
}

/// Why a registration was refused.
#[derive(Clone, Copy, Debug, PartialEq, Eq, Structural)]
pub enum RegistrationError {
    /// The same modifiers and key are already registered.
    DuplicateBinding,
    /// Every registration id has been handed out.
    IdsExhausted,
}

/// Why the start-up hotkeys could not be set up.
#[derive(Clone, Copy, Debug, PartialEq, Eq, Structural)]
pub enum HotkeySetupError {
    /// The configured stop hotkey does not parse.
    InvalidStopHotkey(HotkeyError),
    /// The stop hotkey could not be registered.
    StopHotkeyRefused(RegistrationError),
    /// The hotkey text of the clip at this index does not parse.
    InvalidClipHotkey(usize, HotkeyError),
}

/// The registrations in force, in the order they were made.
pub struct HotkeyManager {
    pub bindings: Vec<Binding>,
    pub next_id: u64,
}

/// The bit mask of a set of modifiers: the physical identity of the set,
/// whatever the order in which the modifiers were written.
pub open spec fn mask_of(s: Set<Modifier>) -> u8 {
    ((if s.contains(Modifier::ALT) { 1int } else { 0 }) + (if s.contains(Modifier::CTRL) {
        2int
    } else {
        0
    }) + (if s.contains(Modifier::SHIFT) { 4int } else { 0 }) + (if s.contains(Modifier::SUPER) {
        8int
    } else {
        0
    })) as u8
}

/// The physical combination of a hotkey.
pub open spec fn combination(h: HotkeySpec) -> (u8, Key) {
    (mask_of(h.modifiers.to_set()), h.key)
}

/// Some registration in `bs` holds the combination `c`.
pub open spec fn is_bound(bs: Seq<Binding>, c: (u8, Key)) -> bool {
    exists|i: int| 0 <= i < bs.len() && (#[trigger] bs[i]).mask == c.0 && bs[i].key == c.1
}

/// What registering a hotkey does to the bindings and the next id, and
/// what it returns.
pub open spec fn register_spec(bs: Seq<Binding>, next: u64, h: HotkeySpec) -> (
    Seq<Binding>,
    u64,
    Result<u64, RegistrationError>,
) {
    if is_bound(bs, combination(h)) {
        (bs, next, Err(RegistrationError::DuplicateBinding))
    } else if next == u64::MAX {
        (bs, next, Err(RegistrationError::IdsExhausted))
    } else {
        (
            bs.push(Binding { id: next, mask: combination(h).0, key: h.key }),
            (next + 1) as u64,
            Ok(next),
        )
    }
}

/// The stop hotkey: the configured text's meaning, or CTRL-S when none is set.
pub open spec fn stop_hotkey_spec(text: Option<Seq<char>>) -> Result<HotkeySpec, HotkeyError> {
    match text {
        Some(t) => parse_spec(t),
        None => Ok(HotkeySpec { modifiers: seq![Modifier::CTRL], key: Key::S }),
    }
}

pub open spec fn opt_text(t: Option<String>) -> Option<Seq<char>> {
    match t {
        Some(s) => Some(s@),
        None => None,
    }
}

/// The hotkey text of each configured clip, in order.
pub open spec fn clip_hotkeys(config: Config) -> Seq<Option<Seq<char>>> {
    match config.sounds {
        Some(v) => v@.map_values(|c: SoundConfig| opt_text(c.hotkey)),
        None => Seq::empty(),
    }
}

/// Where registering the clips' hotkeys stands: the bindings, the next id,
/// the entries made, and the error that stopped it, if any.
pub struct ClipSetup {
    pub bindings: Seq<Binding>,
    pub next: u64,
    pub entries: Seq<(u64, Option<usize>)>,
    pub error: Option<HotkeySetupError>,
}

/// Registering the clips' hotkeys one after the other. A clip whose hotkey
/// text does not parse stops the setup with an error; a clip whose hotkey
/// parses and is free at its turn gets an entry (id, clip index); a clip
/// with no hotkey, or whose registration is refused, is skipped and changes
/// nothing.
pub open spec fn setup_clips(bs: Seq<Binding>, next: u64, clips: Seq<Option<Seq<char>>>) -> ClipSetup
    decreases clips.len(),
{
    if clips.len() == 0 {
        ClipSetup { bindings: bs, next, entries: Seq::empty(), error: None }
    } else {
        let before = setup_clips(bs, next, clips.drop_last());
        let i = clips.len() - 1;
        if before.error is Some {
            before
        } else {
            match clips.last() {
                None => before,
                Some(t) => match parse_spec(t) {
                    Err(e) => ClipSetup {
                        error: Some(HotkeySetupError::InvalidClipHotkey(i as usize, e)),
                        ..before
                    },
                    Ok(h) => {
                        let reg = register_spec(before.bindings, before.next, h);
                        match reg.2 {
                            Ok(id) => ClipSetup {
                                bindings: reg.0,
                                next: reg.1,
                                entries: before.entries.push((id, Some(i as usize))),
                                error: None,
                            },
                            Err(_) => before,
                        }
                    },
                },
            }
        }
    }
}

/// Once the setup has stopped on an error, later clips change nothing.
proof fn lemma_setup_stops(bs: Seq<Binding>, next: u64, clips: Seq<Option<Seq<char>>>, i: int)
    requires
        0 <= i <= clips.len(),
        setup_clips(bs, next, clips.take(i)).error is Some,
    ensures
        setup_clips(bs, next, clips) == setup_clips(bs, next, clips.take(i)),
    decreases clips.len() - i,
{
    if i < clips.len() {
        let d = clips.drop_last();
        assert(d.take(i) =~= clips.take(i));
        lemma_setup_stops(bs, next, d, i);
    } else {
        assert(clips.take(i) =~= clips);
    }
}

impl HotkeyManager {
    /// Ids are unique and below the next one to hand out.
    pub open spec fn wf(&self) -> bool {
        &&& forall|i: int|
            0 <= i < self.bindings@.len() ==> (#[trigger] self.bindings@[i]).id < self.next_id
        &&& forall|i: int, j: int|
            0 <= i < j < self.bindings@.len() ==> (#[trigger] self.bindings@[i]).id
                != (#[trigger] self.bindings@[j]).id
    }

    /// A manager with no registrations.
    pub fn new() -> (r: HotkeyManager)
        ensures
            r.wf(),
            r.bindings@.len() == 0,
            r.next_id == 0,
    {
        HotkeyManager { bindings: Vec::new(), next_id: 0 }
    }

    /// Registers a hotkey's physical combination; the same modifiers and key
    /// cannot be registered twice.
    pub fn register(&mut self, hotkey: &Hotkey) -> (r: Result<u64, RegistrationError>)
        requires
            old(self).wf(),
        ensures
            final(self).wf(),
            is_bound(old(self).bindings@, combination(hotkey@)) ==> r == Err::<
                u64,
                RegistrationError,
            >(RegistrationError::DuplicateBinding) && *final(self) == *old(self),
            !is_bound(old(self).bindings@, combination(hotkey@)) && old(self).next_id == u64::MAX
                ==> r == Err::<u64, RegistrationError>(RegistrationError::IdsExhausted)
                && *final(self) == *old(self),
            !is_bound(old(self).bindings@, combination(hotkey@)) && old(self).next_id < u64::MAX
                ==> r == Ok::<u64, RegistrationError>(old(self).next_id) && final(self).bindings@
                == old(self).bindings@.push(
                (Binding {
                    id: old(self).next_id,
                    mask: combination(hotkey@).0,
                    key: hotkey.key,
                }),
            ) && final(self).next_id == old(self).next_id + 1,
            register_spec(old(self).bindings@, old(self).next_id, hotkey@) == (
                final(self).bindings@,
                final(self).next_id,
                r,
            ),
    {
        let mask = modifier_mask(&hotkey.modifier);
        let mut i: usize = 0;
        while i < self.bindings.len()
            invariant
                i <= self.bindings@.len(),
                *self == *old(self),
                old(self).wf(),
                mask == combination(hotkey@).0,
                forall|j: int|
                    0 <= j < i ==> !((#[trigger] self.bindings@[j]).mask == mask
                        && self.bindings@[j].key == hotkey.key),
            decreases self.bindings@.len() - i,
        {
            let b = self.bindings[i];
            if b.mask == mask && b.key == hotkey.key {
                return Err(RegistrationError::DuplicateBinding);
            }
            i += 1;
        }
        if self.next_id == u64::MAX {
            return Err(RegistrationError::IdsExhausted);
        }
        let id = self.next_id;
        self.bindings.push(Binding { id, mask, key: hotkey.key });
        self.next_id = id + 1;
        Ok(id)
    }

    /// Removes the registration with the given id; says whether there was one.
    pub fn unregister(&mut self, id: u64) -> (r: bool)
        requires
            old(self).wf(),
        ensures
            final(self).wf(),
            final(self).next_id == old(self).next_id,
            r == exists|i: int|
                0 <= i < old(self).bindings@.len() && (#[trigger] old(self).bindings@[i]).id == id,
            r ==> exists|i: int|
                0 <= i < old(self).bindings@.len() && (#[trigger] old(self).bindings@[i]).id == id
                    && final(self).bindings@ == old(self).bindings@.remove(i),
            !r ==> *final(self) == *old(self),
    {
        let mut i: usize = 0;
        while i < self.bindings.len()
            invariant
                i <= self.bindings@.len(),
                *self == *old(self),
                old(self).wf(),
                forall|j: int| 0 <= j < i ==> (#[trigger] self.bindings@[j]).id != id,
            decreases self.bindings@.len() - i,
        {
            if self.bindings[i].id == id {
                let ghost before = self.bindings@;
                self.bindings.remove(i);
                proof {
                    assert(self.bindings@ == before.remove(i as int));
                    assert forall|a: int, b: int|
                        0 <= a < b < self.bindings@.len() implies (#[trigger] self.bindings@[a]).id
                        != (#[trigger] self.bindings@[b]).id by {
                        let a0 = if a < i { a } else { a + 1 };
                        let b0 = if b < i { b } else { b + 1 };
                        assert(self.bindings@[a] == before[a0]);
                        assert(self.bindings@[b] == before[b0]);
                    }
                    assert forall|a: int| 0 <= a < self.bindings@.len() implies (
                    #[trigger] self.bindings@[a]).id < self.next_id by {
                        let a0 = if a < i { a } else { a + 1 };
                        assert(self.bindings@[a] == before[a0]);
                    }
                }
                return true;
            }
            i += 1;
        }
        false
    }
}

/// Registers the start-up hotkeys: the stop hotkey first (CTRL-S unless the
/// configuration sets one), then each clip's hotkey in order. A stop hotkey
/// that does not parse or cannot be registered is fatal and leaves the
/// manager as it was. A clip hotkey that does not parse is fatal too, and
/// the registrations made before it stay; a clip hotkey whose registration
/// is refused (taken, or no ids left) is skipped. The result lists the stop registration, then one entry per
/// registered clip with the clip's index.
pub fn register_hotkeys(config: &Config, manager: &mut HotkeyManager) -> (r: Result<
    Vec<(u64, Option<usize>)>,
    HotkeySetupError,
>)
    requires
        old(manager).wf(),
    ensures
        final(manager).wf(),
        match stop_hotkey_spec(opt_text(config.stop_hotkey)) {
            Err(e) => r == Err::<Vec<(u64, Option<usize>)>, HotkeySetupError>(
                HotkeySetupError::InvalidStopHotkey(e),
            ) && *final(manager) == *old(manager),
            Ok(h) => {
                let reg = register_spec(old(manager).bindings@, old(manager).next_id, h);
                match reg.2 {
                    Err(e) => r == Err::<Vec<(u64, Option<usize>)>, HotkeySetupError>(
                        HotkeySetupError::StopHotkeyRefused(e),
                    ) && *final(manager) == *old(manager),
                    Ok(id) => {
                        let clips = setup_clips(reg.0, reg.1, clip_hotkeys(*config));
                        &&& final(manager).bindings@ == clips.bindings
                        &&& final(manager).next_id == clips.next
                        &&& match clips.error {
                            Some(e) => r == Err::<Vec<(u64, Option<usize>)>, HotkeySetupError>(e),
                            None => r is Ok && r->Ok_0@ == seq![(id, None::<usize>)]
                                + clips.entries,
                        }
                    },
                }
            },
        },
{
    let stop = match &config.stop_hotkey {
        Some(text) => match parse_hotkey(text.as_str()) {
            Ok(h) => h,
            Err(e) => {
                return Err(HotkeySetupError::InvalidStopHotkey(e));
            },
        },
        None => {
            let h = Hotkey { modifier: vec![Modifier::CTRL], key: Key::S };
            assert(h@.modifiers =~= seq![Modifier::CTRL]);
            h
        },
    };
    let stop_id = match manager.register(&stop) {
        Ok(id) => id,
        Err(e) => {
            return Err(HotkeySetupError::StopHotkeyRefused(e));
        },
    };
    let ghost b1 = manager.bindings@;
    let ghost n1 = manager.next_id;
    let mut out: Vec<(u64, Option<usize>)> = Vec::new();
    out.push((stop_id, None));
    let ghost clips = clip_hotkeys(*config);
    match &config.sounds {
        None => {
            proof {
                assert(clips =~= Seq::<Option<Seq<char>>>::empty());
                assert(out@ =~= seq![(stop_id, None::<usize>)] + Seq::empty());
            }
        },
        Some(sounds) => {
            let mut i: usize = 0;
            proof {
                assert(clips.take(0) =~= Seq::<Option<Seq<char>>>::empty());
                assert(out@ =~= seq![(stop_id, None::<usize>)] + Seq::empty());
            }
            while i < sounds.len()
                invariant
                    i <= sounds@.len(),
                    manager.wf(),
                    clips == sounds@.map_values(|c: SoundConfig| opt_text(c.hotkey)),
                    clips == clip_hotkeys(*config),
                    stop_hotkey_spec(opt_text(config.stop_hotkey)) == Ok::<HotkeySpec, HotkeyError>(
                        stop@,
                    ),
                    register_spec(old(manager).bindings@, old(manager).next_id, stop@) == (
                        b1,
                        n1,
                        Ok::<u64, RegistrationError>(stop_id),
                    ),
                    ({
                        let st = setup_clips(b1, n1, clips.take(i as int));
                        &&& manager.bindings@ == st.bindings
                        &&& manager.next_id == st.next
                        &&& st.error is None
                        &&& out@ == seq![(stop_id, None::<usize>)] + st.entries
                    }),
                decreases sounds@.len() - i,
            {
                let ghost pre = clips.take(i as int);
                proof {
                    assert(clips.take(i + 1).drop_last() =~= pre);
                    assert(clips.take(i + 1).last() == opt_text(sounds@[i as int].hotkey));
                }
                match &sounds[i].hotkey {
                    None => {},
                    Some(text) => match parse_hotkey(text.as_str()) {
                        Err(e) => {
                            proof {
                                lemma_setup_stops(b1, n1, clips, i + 1);
                            }
                            return Err(HotkeySetupError::InvalidClipHotkey(i, e));
                        },
                        Ok(h) => match manager.register(&h) {
                            Ok(id) => {
                                let ghost before = out@;
                                out.push((id, Some(i)));
                                proof {
                                    assert(out@ =~= before.push((id, Some(i))));
                                    let st = setup_clips(b1, n1, pre);
                                    assert(out@ =~= seq![(stop_id, None::<usize>)] + st.entries.push(
                                        (id, Some(i)),
                                    ));
                                }
                            },
                            Err(_) => {},
                        },
                    },
                }
                i += 1;
            }
            proof {
                assert(clips.take(sounds@.len() as int) =~= clips);
            }
        },
    }
    Ok(out)
}

/// The bit mask of the modifiers of a hotkey.
fn modifier_mask(mods: &Vec<Modifier>) -> (r: u8)
    ensures
        r == mask_of(mods@.to_set()),
{
    let alt = contains_modifier(mods, Modifier::ALT);
    let ctrl = contains_modifier(mods, Modifier::CTRL);
    let shift = contains_modifier(mods, Modifier::SHIFT);
    let sup = contains_modifier(mods, Modifier::SUPER);
    let a: u8 = if alt { 1 } else { 0 };
    let c: u8 = if ctrl { 2 } else { 0 };
    let s: u8 = if shift { 4 } else { 0 };
    let p: u8 = if sup { 8 } else { 0 };
    a + c + s + p
}

/// Two hotkeys with the same modifiers, in whatever order, and the same key
/// are one physical combination: once the first is registered, registering
/// the second is refused as a duplicate and changes nothing.
pub proof fn lemma_same_combination_is_duplicate(
    bs: Seq<Binding>,
    next: u64,
    first: HotkeySpec,
    second: HotkeySpec,
)
    requires
        first.modifiers.to_set() == second.modifiers.to_set(),
        first.key == second.key,
        register_spec(bs, next, first).2 is Ok,
    ensures
        ({
            let one = register_spec(bs, next, first);
            register_spec(one.0, one.1, second) == (
                one.0,
                one.1,
                Err::<u64, RegistrationError>(RegistrationError::DuplicateBinding),
            )
        }),
{
    let one = register_spec(bs, next, first);
    assert(one.0[bs.len() as int].mask == combination(second).0);
    assert(one.0[bs.len() as int].key == combination(second).1);
    assert(is_bound(one.0, combination(second)));
}

} // verus!
