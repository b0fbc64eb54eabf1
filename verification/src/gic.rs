//! Configuration of the interrupt controller of an aarch64 guest.

use vstd::prelude::*;
use crate::error::MigrationError;

verus! {

/// The first interrupt numbers are private to each CPU (SGIs and PPIs).
pub const GIC_IRQ_INTERNAL: u32 = 32;

/// GIC version type.
#[derive(Clone, Copy, Debug, PartialEq, Eq, Structural)]
pub enum GICVersion {
    GICv2,
    GICv3,
}

/// A wrapper for kvm_based device check and access: it says which attribute
/// of a device is asked for; the caller puts the question to the kernel.
pub struct KvmDevice;

/// An attribute of a device, as the kernel's device interface names it.
#[derive(Clone, Copy, Debug, PartialEq, Eq, Structural)]
pub struct DeviceAttr {
    /// Flags; none is defined.
    pub flags: u32,
    /// The group of the attribute.
    pub group: u32,
    /// The attribute within its group.
    pub attr: u64,
    /// The host address of the attribute's value.
    pub addr: u64,
}

/// What to do with an attribute of a device.
#[derive(Clone, Copy, Debug, PartialEq, Eq, Structural)]
pub enum DeviceAccess {
    /// Set the attribute from the value at its address.
    Write(DeviceAttr),
    /// Read the attribute into the value at its address.
    Read(DeviceAttr),
}

impl KvmDevice {
    /// The attribute to test for: its address plays no part and is 0.
    pub fn kvm_device_check(group: u32, attr: u64) -> (a: DeviceAttr)
        ensures
            a == (DeviceAttr { flags: 0, group, attr, addr: 0 }),
    {
        DeviceAttr { flags: 0, group, attr, addr: 0 }
    }

    /// The access to make: a write sets the attribute, anything else reads
    /// it.
    pub fn kvm_device_access(group: u32, attr: u64, addr: u64, write: bool) -> (a: DeviceAccess)
        ensures
            write ==> a == DeviceAccess::Write(DeviceAttr { flags: 0, group, attr, addr }),
            !write ==> a == DeviceAccess::Read(DeviceAttr { flags: 0, group, attr, addr }),
    {
        let attr = DeviceAttr { flags: 0, group, attr, addr };
        if write {
            DeviceAccess::Write(attr)
        } else {
            DeviceAccess::Read(attr)
        }
    }
}

/// The address ranges of a version 2 controller, each as base and size.
pub struct GICv2Config {
    /// Distributor range.
    pub dist_range: (u64, u64),
    /// CPU interface range.
    pub cpu_range: (u64, u64),
    /// Range of the MSI frame, if there is one.
    pub v2m_range: Option<(u64, u64)>,
}

/// The address ranges of a version 3 controller, each as base and size.
pub struct GICv3Config {
    /// Whether message-signalled interrupts are offered.
    pub msi: bool,
    /// Distributor range.
    pub dist_range: (u64, u64),
    /// Redistributor regions.
    pub redist_region_ranges: Vec<(u64, u64)>,
    /// Range of the interrupt translation service, if there is one.
    pub its_range: Option<(u64, u64)>,
}

/// What a guest asks of its interrupt controller.
pub struct GICConfig {
    /// Config GIC version
    pub version: Option<GICVersion>,
    /// Config number of CPUs handled by the device
    pub vcpu_count: u64,
    /// Config maximum number of irqs handled by the device
    pub max_irq: u32,
    /// v2 config.
    pub v2: Option<GICv2Config>,
    /// v3 config.
    pub v3: Option<GICv3Config>,
}

/// The versions to try for a requested version, in order: the requested one
/// alone, or version 3 and then version 2 where none was requested.
pub open spec fn version_order(requested: Option<GICVersion>) -> Seq<GICVersion> {
    match requested {
        Some(v) => seq![v],
        None => seq![GICVersion::GICv3, GICVersion::GICv2],
    }
}

impl GICConfig {
    /// A configuration is usable when it leaves interrupt numbers beyond the
    /// per-CPU ones.
    pub open spec fn sane(&self) -> bool {
        self.max_irq > GIC_IRQ_INTERNAL
    }

    /// Accepts a configuration whose highest interrupt number lies above the
    /// per-CPU ones, and reports `InvalidConfig` for any other.
    pub fn check_sanity(&self) -> (r: Result<(), MigrationError>)
        ensures
            self.sane() ==> r.is_ok(),
            !self.sane() ==> r == Err::<(), MigrationError>(MigrationError::InvalidConfig),
    {
        if self.max_irq <= GIC_IRQ_INTERNAL {
            return Err(MigrationError::InvalidConfig);
        }
        Ok(())
    }

    /// The controller versions to create for this configuration, first to
    /// last; a caller stops at the first that the host can provide.
    pub fn versions_to_try(&self) -> (r: Result<Vec<GICVersion>, MigrationError>)
        ensures
            self.sane() ==> r.is_ok() && r->Ok_0@ == version_order(self.version),
            !self.sane() ==> r == Err::<Vec<GICVersion>, MigrationError>(
                MigrationError::InvalidConfig,
            ),
    {
        match self.check_sanity() {
            Err(e) => Err(e),
            Ok(()) => {
                let mut order: Vec<GICVersion> = Vec::new();
                match self.version {
                    Some(v) => {
                        order.push(v);
                    },
                    None => {
                        order.push(GICVersion::GICv3);
                        order.push(GICVersion::GICv2);
                    },
                }
                assert(order@ =~= version_order(self.version));
                Ok(order)
            },
        }
    }
}

/// Which attempt to create a controller is taken, given how the attempts
/// made so far ended, in the order in which they were made: the first that
/// succeeded. `None` where none has succeeded, so that the next version is
/// tried only after every one before it has failed.
pub fn first_created(created: &[bool]) -> (r: Option<usize>)
    ensures
        match r {
            Some(i) => i < created@.len() && created@[i as int] && forall|j: int|
                0 <= j < i ==> !created@[j],
            None => forall|j: int| 0 <= j < created@.len() ==> !created@[j],
        },
{
    let mut i: usize = 0;
    while i < created.len()
        invariant
            i <= created@.len(),
            forall|j: int| 0 <= j < i ==> !created@[j],
        decreases created@.len() - i,
    {
        if created[i] {
            return Some(i);
        }
        i = i + 1;
    }
    None
}

/// What to do next while a controller is being created.
#[derive(Clone, Copy, Debug, PartialEq, Eq, Structural)]
pub enum Attempt {
    /// Try to create a controller of this version.
    Try(GICVersion),
    /// Take the controller that the attempt at this position created.
    Take(usize),
    /// Every version was tried and none could be created.
    GiveUp,
}

/// The position of the first attempt that succeeded, if one did.
pub open spec fn first_success(created: Seq<bool>) -> Option<int>
    decreases created.len(),
{
    if created.len() == 0 {
        None
    } else if created[0] {
        Some(0)
    } else {
        match first_success(created.drop_first()) {
            Some(i) => Some(i + 1),
            None => None,
        }
    }
}

/// What to do next for a requested version, given how the attempts made so
/// far ended: the first success is taken; while none has succeeded the next
/// version in order is tried; and when none is left, the creation has
/// failed.
pub open spec fn attempt_of(requested: Option<GICVersion>, created: Seq<bool>) -> Attempt {
    match first_success(created) {
        Some(i) => Attempt::Take(i as usize),
        None => if created.len() < version_order(requested).len() {
            Attempt::Try(version_order(requested)[created.len() as int])
        } else {
            Attempt::GiveUp
        },
    }
}

/// The first success is a success, none precedes it, and there is one
/// wherever an attempt succeeded.
pub proof fn lemma_first_success(created: Seq<bool>)
    ensures
        match first_success(created) {
            Some(i) => 0 <= i < created.len() && created[i] && forall|j: int|
                0 <= j < i ==> !created[j],
            None => forall|j: int| 0 <= j < created.len() ==> !created[j],
        },
    decreases created.len(),
{
    if created.len() > 0 && !created[0] {
        let tail = created.drop_first();
        lemma_first_success(tail);
        match first_success(tail) {
            Some(i) => {
                assert forall|j: int| 0 <= j < i + 1 implies !created[j] by {
                    if j > 0 {
                        assert(created[j] == tail[j - 1]);
                    }
                }
                assert(created[i + 1] == tail[i]);
            },
            None => {
                assert forall|j: int| 0 <= j < created.len() implies !created[j] by {
                    if j > 0 {
                        assert(created[j] == tail[j - 1]);
                    }
                }
            },
        }
    }
}

impl GICConfig {
    /// What to do next while the controller of this configuration is being
    /// created, given how the attempts made so far ended, in their order. A
    /// configuration that is not usable is refused before anything is tried.
    pub fn next_attempt(&self, created: &[bool]) -> (r: Result<Attempt, MigrationError>)
        ensures
            self.sane() ==> r == Ok::<Attempt, MigrationError>(
                attempt_of(self.version, created@),
            ),
            !self.sane() ==> r == Err::<Attempt, MigrationError>(MigrationError::InvalidConfig),
    {
        let order = match self.versions_to_try() {
            Err(e) => {
                return Err(e);
            },
            Ok(order) => order,
        };
        proof {
            lemma_first_success(created@);
        }
        match first_created(created) {
            Some(i) => {
                proof {
                    let k = first_success(created@)->Some_0;
                    if k < i {
                        assert(!created@[k]);
                    } else if i < k {
                        assert(!created@[i as int]);
                    }
                }
                Ok(Attempt::Take(i))
            },
            None => {
                if created.len() < order.len() {
                    Ok(Attempt::Try(order[created.len()]))
                } else {
                    Ok(Attempt::GiveUp)
                }
            },
        }
    }
}

} // verus!
