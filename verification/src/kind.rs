//! The kinds of objects: their names, and the numbers they have in a bank.

use vstd::prelude::*;

verus! {

/// The kind of an object.
#[derive(Debug, Clone, Copy, PartialEq, Eq, Structural)]
pub enum BodyKind {
    State,
    Sound,
    Action,
    Event,
    RandomSequenceContainer,
    SwitchContainer,
    ActorMixer,
    Bus,
    LayerContainer,
    MusicSegment,
    MusicTrack,
    MusicSwitchContainer,
    MusicRandomSequenceContainer,
    Attenuation,
    DialogueEvent,
    EffectShareSet,
    EffectCustom,
    AuxiliaryBus,
    LFOModulator,
    EnvelopeModulator,
    AudioDevice,
    TimeModulator,
}

/// The name of a kind.
pub open spec fn kind_name(kind: BodyKind) -> Seq<char> {
    match kind {
        BodyKind::State => "State"@,
        BodyKind::Sound => "Sound"@,
        BodyKind::Action => "Action"@,
        BodyKind::Event => "Event"@,
        BodyKind::RandomSequenceContainer => "RandomSequenceContainer"@,
        BodyKind::SwitchContainer => "SwitchContainer"@,
        BodyKind::ActorMixer => "ActorMixer"@,
        BodyKind::Bus => "Bus"@,
        BodyKind::LayerContainer => "LayerContainer"@,
        BodyKind::MusicSegment => "MusicSegment"@,
        BodyKind::MusicTrack => "MusicTrack"@,
        BodyKind::MusicSwitchContainer => "MusicSwitchContainer"@,
        BodyKind::MusicRandomSequenceContainer => "MusicRandomSequenceContainer"@,
        BodyKind::Attenuation => "Attenuation"@,
        BodyKind::DialogueEvent => "DialogueEvent"@,
        BodyKind::EffectShareSet => "EffectShareSet"@,
        BodyKind::EffectCustom => "EffectCustom"@,
        BodyKind::AuxiliaryBus => "AuxiliaryBus"@,
        BodyKind::LFOModulator => "LFOModulator"@,
        BodyKind::EnvelopeModulator => "EnvelopeModulator"@,
        BodyKind::AudioDevice => "AudioDevice"@,
        BodyKind::TimeModulator => "TimeModulator"@,
    }
}

/// The number of a kind in a bank.
pub open spec fn kind_number(kind: BodyKind) -> u8 {
    match kind {
        BodyKind::State => 1,
        BodyKind::Sound => 2,
        BodyKind::Action => 3,
        BodyKind::Event => 4,
        BodyKind::RandomSequenceContainer => 5,
        BodyKind::SwitchContainer => 6,
        BodyKind::ActorMixer => 7,
        BodyKind::Bus => 8,
        BodyKind::LayerContainer => 9,
        BodyKind::MusicSegment => 10,
        BodyKind::MusicTrack => 11,
        BodyKind::MusicSwitchContainer => 12,
        BodyKind::MusicRandomSequenceContainer => 13,
        BodyKind::Attenuation => 14,
        BodyKind::DialogueEvent => 15,
        BodyKind::EffectShareSet => 16,
        BodyKind::EffectCustom => 17,
        BodyKind::AuxiliaryBus => 18,
        BodyKind::LFOModulator => 19,
        BodyKind::EnvelopeModulator => 20,
        BodyKind::AudioDevice => 21,
        BodyKind::TimeModulator => 22,
    }
}

/// The kind of a name.
pub open spec fn kind_named(name: Seq<char>) -> Option<BodyKind> {
    if name == "State"@ {
        Some(BodyKind::State)
    } else if name == "Sound"@ {
        Some(BodyKind::Sound)
    } else if name == "Action"@ {
        Some(BodyKind::Action)
    } else if name == "Event"@ {
        Some(BodyKind::Event)
    } else if name == "RandomSequenceContainer"@ {
        Some(BodyKind::RandomSequenceContainer)
    } else if name == "SwitchContainer"@ {
        Some(BodyKind::SwitchContainer)
    } else if name == "ActorMixer"@ {
        Some(BodyKind::ActorMixer)
    } else if name == "Bus"@ {
        Some(BodyKind::Bus)
    } else if name == "LayerContainer"@ {
        Some(BodyKind::LayerContainer)
    } else if name == "MusicSegment"@ {
        Some(BodyKind::MusicSegment)
    } else if name == "MusicTrack"@ {
        Some(BodyKind::MusicTrack)
    } else if name == "MusicSwitchContainer"@ {
        Some(BodyKind::MusicSwitchContainer)
    } else if name == "MusicRandomSequenceContainer"@ {
        Some(BodyKind::MusicRandomSequenceContainer)
    } else if name == "Attenuation"@ {
        Some(BodyKind::Attenuation)
    } else if name == "DialogueEvent"@ {
        Some(BodyKind::DialogueEvent)
    } else if name == "EffectShareSet"@ {
        Some(BodyKind::EffectShareSet)
    } else if name == "EffectCustom"@ {
        Some(BodyKind::EffectCustom)
    } else if name == "AuxiliaryBus"@ {
        Some(BodyKind::AuxiliaryBus)
    } else if name == "LFOModulator"@ {
        Some(BodyKind::LFOModulator)
    } else if name == "EnvelopeModulator"@ {
        Some(BodyKind::EnvelopeModulator)
    } else if name == "AudioDevice"@ {
        Some(BodyKind::AudioDevice)
    } else if name == "TimeModulator"@ {
        Some(BodyKind::TimeModulator)
    } else {
        None
    }
}

impl BodyKind {
    /// The name of the kind.
    pub fn name(self) -> (r: &'static str)
        ensures
            r@ == kind_name(self),
    {
        match self {
            BodyKind::State => "State",
            BodyKind::Sound => "Sound",
            BodyKind::Action => "Action",
            BodyKind::Event => "Event",
            BodyKind::RandomSequenceContainer => "RandomSequenceContainer",
            BodyKind::SwitchContainer => "SwitchContainer",
            BodyKind::ActorMixer => "ActorMixer",
            BodyKind::Bus => "Bus",
            BodyKind::LayerContainer => "LayerContainer",
            BodyKind::MusicSegment => "MusicSegment",
            BodyKind::MusicTrack => "MusicTrack",
            BodyKind::MusicSwitchContainer => "MusicSwitchContainer",
            BodyKind::MusicRandomSequenceContainer => "MusicRandomSequenceContainer",
            BodyKind::Attenuation => "Attenuation",
            BodyKind::DialogueEvent => "DialogueEvent",
            BodyKind::EffectShareSet => "EffectShareSet",
            BodyKind::EffectCustom => "EffectCustom",
            BodyKind::AuxiliaryBus => "AuxiliaryBus",
            BodyKind::LFOModulator => "LFOModulator",
            BodyKind::EnvelopeModulator => "EnvelopeModulator",
            BodyKind::AudioDevice => "AudioDevice",
            BodyKind::TimeModulator => "TimeModulator",
        }
    }

    /// The number of the kind in a bank.
    pub fn number(self) -> (r: u8)
        ensures
            r == kind_number(self),
    {
        match self {
            BodyKind::State => 1,
            BodyKind::Sound => 2,
            BodyKind::Action => 3,
            BodyKind::Event => 4,
            BodyKind::RandomSequenceContainer => 5,
            BodyKind::SwitchContainer => 6,
            BodyKind::ActorMixer => 7,
            BodyKind::Bus => 8,
            BodyKind::LayerContainer => 9,
            BodyKind::MusicSegment => 10,
            BodyKind::MusicTrack => 11,
            BodyKind::MusicSwitchContainer => 12,
            BodyKind::MusicRandomSequenceContainer => 13,
            BodyKind::Attenuation => 14,
            BodyKind::DialogueEvent => 15,
            BodyKind::EffectShareSet => 16,
            BodyKind::EffectCustom => 17,
            BodyKind::AuxiliaryBus => 18,
            BodyKind::LFOModulator => 19,
            BodyKind::EnvelopeModulator => 20,
            BodyKind::AudioDevice => 21,
            BodyKind::TimeModulator => 22,
        }
    }

    /// The kind of a name.
    pub fn from_name(name: &String) -> (r: Option<BodyKind>)
        ensures
            r == kind_named(name@),
    {
        if *name == "State".to_owned() {
            Some(BodyKind::State)
        } else if *name == "Sound".to_owned() {
            Some(BodyKind::Sound)
        } else if *name == "Action".to_owned() {
            Some(BodyKind::Action)
        } else if *name == "Event".to_owned() {
            Some(BodyKind::Event)
        } else if *name == "RandomSequenceContainer".to_owned() {
            Some(BodyKind::RandomSequenceContainer)
        } else if *name == "SwitchContainer".to_owned() {
            Some(BodyKind::SwitchContainer)
        } else if *name == "ActorMixer".to_owned() {
            Some(BodyKind::ActorMixer)
        } else if *name == "Bus".to_owned() {
            Some(BodyKind::Bus)
        } else if *name == "LayerContainer".to_owned() {
            Some(BodyKind::LayerContainer)
        } else if *name == "MusicSegment".to_owned() {
            Some(BodyKind::MusicSegment)
        } else if *name == "MusicTrack".to_owned() {
            Some(BodyKind::MusicTrack)
        } else if *name == "MusicSwitchContainer".to_owned() {
            Some(BodyKind::MusicSwitchContainer)
        } else if *name == "MusicRandomSequenceContainer".to_owned() {
            Some(BodyKind::MusicRandomSequenceContainer)
        } else if *name == "Attenuation".to_owned() {
            Some(BodyKind::Attenuation)
        } else if *name == "DialogueEvent".to_owned() {
            Some(BodyKind::DialogueEvent)
        } else if *name == "EffectShareSet".to_owned() {
            Some(BodyKind::EffectShareSet)
        } else if *name == "EffectCustom".to_owned() {
            Some(BodyKind::EffectCustom)
        } else if *name == "AuxiliaryBus".to_owned() {
            Some(BodyKind::AuxiliaryBus)
        } else if *name == "LFOModulator".to_owned() {
            Some(BodyKind::LFOModulator)
        } else if *name == "EnvelopeModulator".to_owned() {
            Some(BodyKind::EnvelopeModulator)
        } else if *name == "AudioDevice".to_owned() {
            Some(BodyKind::AudioDevice)
        } else if *name == "TimeModulator".to_owned() {
            Some(BodyKind::TimeModulator)
        } else {
            None
        }
    }
}

/// Each kind is found by its name.
pub proof fn lemma_kind_names(kind: BodyKind)
    ensures
        kind_named(kind_name(kind)) == Some(kind),
{
    reveal_strlit("State");
    reveal_strlit("Sound");
    reveal_strlit("Action");
    reveal_strlit("Event");
    reveal_strlit("RandomSequenceContainer");
    reveal_strlit("SwitchContainer");
    reveal_strlit("ActorMixer");
    reveal_strlit("Bus");
    reveal_strlit("LayerContainer");
    reveal_strlit("MusicSegment");
    reveal_strlit("MusicTrack");
    reveal_strlit("MusicSwitchContainer");
    reveal_strlit("MusicRandomSequenceContainer");
    reveal_strlit("Attenuation");
    reveal_strlit("DialogueEvent");
    reveal_strlit("EffectShareSet");
    reveal_strlit("EffectCustom");
    reveal_strlit("AuxiliaryBus");
    reveal_strlit("LFOModulator");
    reveal_strlit("EnvelopeModulator");
    reveal_strlit("AudioDevice");
    reveal_strlit("TimeModulator");
    assert("State"@.len() == 5 && "State"@[0] == 'S' && "State"@[1] == 't');
    assert("Sound"@.len() == 5 && "Sound"@[0] == 'S' && "Sound"@[1] == 'o');
    assert("Action"@.len() == 6 && "Action"@[0] == 'A' && "Action"@[1] == 'c');
    assert("Event"@.len() == 5 && "Event"@[0] == 'E' && "Event"@[1] == 'v');
    assert("RandomSequenceContainer"@.len() == 23 && "RandomSequenceContainer"@[0] == 'R' && "RandomSequenceContainer"@[1] == 'a');
    assert("SwitchContainer"@.len() == 15 && "SwitchContainer"@[0] == 'S' && "SwitchContainer"@[1] == 'w');
    assert("ActorMixer"@.len() == 10 && "ActorMixer"@[0] == 'A' && "ActorMixer"@[1] == 'c');
    assert("Bus"@.len() == 3 && "Bus"@[0] == 'B' && "Bus"@[1] == 'u');
    assert("LayerContainer"@.len() == 14 && "LayerContainer"@[0] == 'L' && "LayerContainer"@[1] == 'a');
    assert("MusicSegment"@.len() == 12 && "MusicSegment"@[0] == 'M' && "MusicSegment"@[1] == 'u');
    assert("MusicTrack"@.len() == 10 && "MusicTrack"@[0] == 'M' && "MusicTrack"@[1] == 'u');
    assert("MusicSwitchContainer"@.len() == 20 && "MusicSwitchContainer"@[0] == 'M' && "MusicSwitchContainer"@[1] == 'u');
    assert("MusicRandomSequenceContainer"@.len() == 28 && "MusicRandomSequenceContainer"@[0] == 'M' && "MusicRandomSequenceContainer"@[1] == 'u');
    assert("Attenuation"@.len() == 11 && "Attenuation"@[0] == 'A' && "Attenuation"@[1] == 't');
    assert("DialogueEvent"@.len() == 13 && "DialogueEvent"@[0] == 'D' && "DialogueEvent"@[1] == 'i');
    assert("EffectShareSet"@.len() == 14 && "EffectShareSet"@[0] == 'E' && "EffectShareSet"@[1] == 'f');
    assert("EffectCustom"@.len() == 12 && "EffectCustom"@[0] == 'E' && "EffectCustom"@[1] == 'f');
    assert("AuxiliaryBus"@.len() == 12 && "AuxiliaryBus"@[0] == 'A' && "AuxiliaryBus"@[1] == 'u');
    assert("LFOModulator"@.len() == 12 && "LFOModulator"@[0] == 'L' && "LFOModulator"@[1] == 'F');
    assert("EnvelopeModulator"@.len() == 17 && "EnvelopeModulator"@[0] == 'E' && "EnvelopeModulator"@[1] == 'n');
    assert("AudioDevice"@.len() == 11 && "AudioDevice"@[0] == 'A' && "AudioDevice"@[1] == 'u');
    assert("TimeModulator"@.len() == 13 && "TimeModulator"@[0] == 'T' && "TimeModulator"@[1] == 'i');
}

/// Two kinds differ in their numbers.
pub proof fn lemma_kind_numbers(a: BodyKind, b: BodyKind)
    requires
        kind_number(a) == kind_number(b),
    ensures
        a == b,
{
}

} // verus!
