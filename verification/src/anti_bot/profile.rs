//! Device class used by the mesh handshake and hardware attestation.
//!
//! Phones attach DAG vertices; the PC is a gateway.

use vstd::prelude::*;

verus! {

/// Declared device class, bound into the handshake HELLO.
#[derive(Clone, Copy, Debug, PartialEq, Eq, Structural, PartialOrd, Ord, Hash)]
pub enum DeviceClass {
    /// MCU / battery sensor.
    IotSensor,
    /// Phone / Termux. Only this class may attach as a mesh miner.
    LegacyMobile,
    /// Desktop / laptop gateway (does not mint).
    PersonalComputer,
}

impl DeviceClass {
    /// The wire number of the class.
    pub open spec fn code(self) -> u8 {
        match self {
            DeviceClass::IotSensor => 0,
            DeviceClass::LegacyMobile => 1,
            DeviceClass::PersonalComputer => 2,
        }
    }

    /// The class with wire number `v`.
    pub open spec fn decoded(v: u8) -> Option<DeviceClass> {
        if v == 0 {
            Some(DeviceClass::IotSensor)
        } else if v == 1 {
            Some(DeviceClass::LegacyMobile)
        } else if v == 2 {
            Some(DeviceClass::PersonalComputer)
        } else {
            None
        }
    }

    pub fn to_u8(self) -> (r: u8)
        ensures
            r == self.code(),
    {
        match self {
            DeviceClass::IotSensor => 0,
            DeviceClass::LegacyMobile => 1,
            DeviceClass::PersonalComputer => 2,
        }
    }

    pub fn from_u8(v: u8) -> (r: Option<Self>)
        ensures
            r == Self::decoded(v),
    {
        match v {
            0 => Some(DeviceClass::IotSensor),
            1 => Some(DeviceClass::LegacyMobile),
            2 => Some(DeviceClass::PersonalComputer),
            _ => None,
        }
    }

    pub fn as_str(self) -> (r: &'static str)
        ensures
            r@ == (match self {
                DeviceClass::IotSensor => "iot-sensor"@,
                DeviceClass::LegacyMobile => "legacy-mobile"@,
                DeviceClass::PersonalComputer => "pc"@,
            }),
    {
        match self {
            DeviceClass::IotSensor => "iot-sensor",
            DeviceClass::LegacyMobile => "legacy-mobile",
            DeviceClass::PersonalComputer => "pc",
        }
    }

    /// Whether the class may do phone-only mesh work.
    pub fn is_phone_miner(self) -> (r: bool)
        ensures
            r == (self == DeviceClass::LegacyMobile),
    {
        match self {
            DeviceClass::LegacyMobile => true,
            _ => false,
        }
    }
}

/// The wire number identifies the class.
pub proof fn law_device_class_round_trip(class: DeviceClass)
    ensures
        DeviceClass::decoded(class.code()) == Some(class),
{
}

/// Self-reported capability envelope used to simulate a hardware quote.
#[derive(Clone, Copy, Debug, PartialEq, Eq, Structural)]
pub struct HardwareProfile {
    pub class: DeviceClass,
    pub ram_kib: u32,
    pub estimated_mhz: u32,
    pub battery_aware: bool,
}

/// The capability envelope of a class.
pub open spec fn profile_of(class: DeviceClass) -> HardwareProfile {
    match class {
        DeviceClass::IotSensor => HardwareProfile {
            class,
            ram_kib: 32,
            estimated_mhz: 48,
            battery_aware: true,
        },
        DeviceClass::LegacyMobile => HardwareProfile {
            class,
            ram_kib: 256,
            estimated_mhz: 400,
            battery_aware: true,
        },
        DeviceClass::PersonalComputer => HardwareProfile {
            class,
            ram_kib: 4096,
            estimated_mhz: 2500,
            battery_aware: false,
        },
    }
}

impl HardwareProfile {
    pub fn iot_sensor() -> (r: Self)
        ensures
            r == profile_of(DeviceClass::IotSensor),
    {
        HardwareProfile {
            class: DeviceClass::IotSensor,
            ram_kib: 32,
            estimated_mhz: 48,
            battery_aware: true,
        }
    }

    pub fn legacy_mobile() -> (r: Self)
        ensures
            r == profile_of(DeviceClass::LegacyMobile),
    {
        HardwareProfile {
            class: DeviceClass::LegacyMobile,
            ram_kib: 256,
            estimated_mhz: 400,
            battery_aware: true,
        }
    }

    pub fn smartphone() -> (r: Self)
        ensures
            r == profile_of(DeviceClass::LegacyMobile),
    {
        Self::legacy_mobile()
    }

    pub fn personal_computer() -> (r: Self)
        ensures
            r == profile_of(DeviceClass::PersonalComputer),
    {
        HardwareProfile {
            class: DeviceClass::PersonalComputer,
            ram_kib: 4096,
            estimated_mhz: 2500,
            battery_aware: false,
        }
    }

    /// The profile of a host with `cores` logical cores.
    pub fn detect(cores: usize, narrow_pointers: bool) -> (r: Self)
        ensures
            r == profile_of(
                if narrow_pointers && cores <= 2 {
                    DeviceClass::LegacyMobile
                } else if cores <= 1 {
                    DeviceClass::IotSensor
                } else if cores <= 4 {
                    DeviceClass::LegacyMobile
                } else {
                    DeviceClass::PersonalComputer
                },
            ),
    {
        if narrow_pointers && cores <= 2 {
            Self::legacy_mobile()
        } else if cores <= 1 {
            Self::iot_sensor()
        } else if cores <= 4 {
            Self::legacy_mobile()
        } else {
            Self::personal_computer()
        }
    }
}

} // verus!
