//! The static description of devices that the rest is configured from.
use vstd::prelude::*;

use crate::device_value::Type;

verus! {

/// The platform a device runs on.
#[derive(Debug, Clone, Copy, PartialEq, Eq, Structural)]
pub enum Platform {
    STM32,
    External,
}

/// How a device's firmware updates its variables.
#[derive(Debug, Clone, Copy, PartialEq, Eq, Structural)]
pub enum UpdateType {
    ManualUpdate,
    ManualFunctions,
}

/// A serial port: its baud rate and its two pins.
#[derive(Debug, Clone)]
pub struct PinBaud {
    pub baud: u32,
    pub rx_pin: String,
    pub tx_pin: String,
}

/// The serial ports of a device.
#[derive(Debug, Clone)]
pub struct UartConfig(Vec<PinBaud>);

impl UartConfig {
    pub closed spec fn ports(&self) -> Seq<PinBaud> {
        self.0@
    }

    pub fn new(ports: Vec<PinBaud>) -> (r: Self)
        ensures
            r.ports() == ports@,
    {
        UartConfig(ports)
    }

    pub fn is_empty(&self) -> (r: bool)
        ensures
            r == (self.ports().len() == 0),
    {
        self.0.len() == 0
    }

    pub fn num_devices(&self) -> (r: usize)
        ensures
            r == self.ports().len(),
    {
        self.0.len()
    }

    pub fn configs(&self) -> (r: &Vec<PinBaud>)
        ensures
            r@ == self.ports(),
    {
        &self.0
    }
}

/// The names of `buses`, in order.
pub open spec fn bus_names(buses: Seq<(String, PinBaud)>) -> Seq<Seq<char>> {
    buses.map_values(|b: (String, PinBaud)| b.0@)
}

/// The CAN buses of a device, each under a distinct name.
#[derive(Debug, Clone)]
pub struct CanConfig(Vec<(String, PinBaud)>);

impl CanConfig {
    pub closed spec fn buses(&self) -> Seq<(String, PinBaud)> {
        self.0@
    }

    /// No two buses share a name.
    pub open spec fn wf(&self) -> bool {
        bus_names(self.buses()).no_duplicates()
    }

    /// The buses as given, or `None` where two share a name.
    pub fn new(buses: Vec<(String, PinBaud)>) -> (r: Option<Self>)
        ensures
            r is Some <==> bus_names(buses@).no_duplicates(),
            r matches Some(c) ==> c.buses() == buses@ && c.wf(),
    {
        let mut i: usize = 0;
        while i < buses.len()
            invariant
                i <= buses@.len(),
                forall|a: int, b: int|
                    0 <= a < b < buses@.len() && a < i ==> #[trigger] bus_names(buses@)[a]
                        != #[trigger] bus_names(buses@)[b],
            decreases buses@.len() - i,
        {
            let mut j: usize = i + 1;
            while j < buses.len()
                invariant
                    i < buses@.len(),
                    i + 1 <= j <= buses@.len(),
                    forall|a: int, b: int|
                        0 <= a < b < buses@.len() && a < i ==> #[trigger] bus_names(buses@)[a]
                            != #[trigger] bus_names(buses@)[b],
                    forall|b: int| i < b < j ==> bus_names(buses@)[i as int] != #[trigger] bus_names(buses@)[b],
                decreases buses@.len() - j,
            {
                if buses[i].0 == buses[j].0 {
                    proof {
                        assert(bus_names(buses@)[i as int] == bus_names(buses@)[j as int]);
                    }
                    return None;
                }
                j = j + 1;
            }
            i = i + 1;
        }
        Some(CanConfig(buses))
    }

    pub fn is_empty(&self) -> (r: bool)
        ensures
            r == (self.buses().len() == 0),
    {
        self.0.len() == 0
    }

    pub fn num_devices(&self) -> (r: usize)
        ensures
            r == self.buses().len(),
    {
        self.0.len()
    }

    pub fn configs(&self) -> (r: &Vec<(String, PinBaud)>)
        ensures
            r@ == self.buses(),
    {
        &self.0
    }
}

/// A node of a device's variable tree as configured.
#[derive(Debug)]
pub enum VariableNode {
    Enum {
        name: String,
        identifier: String,
        uppercase_identifier: Option<String>,
        can_frequency: Option<String>,
        per_dos_frequency: Option<String>,
        ty: Type,
        default: String,
        enum_values: String,
        description: String,
        min: Option<u32>,
        max: Option<u32>,
    },
    Variable {
        name: String,
        identifier: String,
        ty: Type,
        description: String,
        can_frequency: Option<String>,
        per_dos_frequency: Option<String>,
        units: Option<String>,
        default: Option<String>,
        array_dimensions: Option<u32>,
        min: Option<String>,
        max: Option<String>,
        read_only: Option<bool>,
    },
    Struct {
        name: String,
        identifier: String,
        uppercase_identifier: Option<String>,
        description: Option<String>,
        can_frequency: Option<String>,
        per_dos_frequency: Option<String>,
        read_only: Option<bool>,
        array_dimensions: Option<u32>,
        variable_tree: Vec<VariableNode>,
    },
    Repeat {
        name: String,
        identifier: String,
        uppercase_identifier: Option<String>,
        description: Option<String>,
        can_frequency: Option<String>,
        per_dos_frequency: Option<String>,
        prefixes: Option<String>,
        variable_tree: Vec<VariableNode>,
    },
}

/// The ids of the devices assigned to one link.
#[derive(Debug, Clone)]
pub struct DeviceIds(Vec<u32>);

impl DeviceIds {
    pub closed spec fn ids(&self) -> Seq<u32> {
        self.0@
    }

    pub fn new(ids: Vec<u32>) -> (r: Self)
        ensures
            r.ids() == ids@,
    {
        DeviceIds(ids)
    }

    /// Whether the device with id `id` is among these.
    pub fn contains(&self, id: u32) -> (r: bool)
        ensures
            r == self.ids().contains(id),
    {
        let mut i: usize = 0;
        while i < self.0.len()
            invariant
                i <= self.ids().len(),
                forall|j: int| 0 <= j < i ==> self.ids()[j] != id,
            decreases self.ids().len() - i,
        {
            if self.0[i] == id {
                return true;
            }
            i = i + 1;
        }
        false
    }
}

} // verus!
