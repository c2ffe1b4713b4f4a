//! The data model of the emulator run configuration.
//!
//! The build tooling reads a declarative manifest describing the virtual
//! machine the kernel boots in and renders it into emulator command-line
//! arguments.  The types here carry that description as plain values, and
//! the rendering into argument strings is done here; reading the manifest
//! and spawning the emulator stay with the tooling around the library.

use vstd::prelude::*;
use vstd::string::*;

use crate::resolve::ResolveError;

verus! {

/// What can go wrong while assembling or launching an emulator run: an
/// input/output failure, or a failure while resolving an artifact.
#[derive(Clone, Debug, PartialEq, Eq)]
pub enum ManifestQemuError {
    Io,
    Resolve(ResolveError),
}

/// The machine board the emulator models.
#[derive(Clone, Copy, Debug, PartialEq, Eq, Structural)]
pub enum ManifestQemuMachineType {
    Q35,
    PC,
}

pub open spec fn machine_type_name(t: ManifestQemuMachineType) -> Seq<char> {
    match t {
        ManifestQemuMachineType::Q35 => "q35"@,
        ManifestQemuMachineType::PC => "pc"@,
    }
}

impl ManifestQemuMachineType {
    /// The name this board carries on the emulator command line.
    pub fn arg_name(&self) -> (r: &'static str)
        ensures
            r@ == machine_type_name(*self),
    {
        match *self {
            ManifestQemuMachineType::Q35 => "q35",
            ManifestQemuMachineType::PC => "pc",
        }
    }
}

/// How the interrupt controller is virtualized.
#[derive(Clone, Copy, Debug, PartialEq, Eq, Structural)]
pub enum ManifestQemuMachineKernelIRQChip {
    On,
    Off,
    Split,
}

pub open spec fn irqchip_name(t: ManifestQemuMachineKernelIRQChip) -> Seq<char> {
    match t {
        ManifestQemuMachineKernelIRQChip::On => "on"@,
        ManifestQemuMachineKernelIRQChip::Off => "off"@,
        ManifestQemuMachineKernelIRQChip::Split => "split"@,
    }
}

impl ManifestQemuMachineKernelIRQChip {
    /// The value this choice carries on the emulator command line.
    pub fn arg_name(&self) -> (r: &'static str)
        ensures
            r@ == irqchip_name(*self),
    {
        match *self {
            ManifestQemuMachineKernelIRQChip::On => "on",
            ManifestQemuMachineKernelIRQChip::Off => "off",
            ManifestQemuMachineKernelIRQChip::Split => "split",
        }
    }
}

/// The threading model of the accelerator.
#[derive(Clone, Copy, Debug, PartialEq, Eq, Structural)]
pub enum ManifestQemuMachineAccelThread {
    Single,
    Multi,
}

pub open spec fn accel_thread_name(t: ManifestQemuMachineAccelThread) -> Seq<char> {
    match t {
        ManifestQemuMachineAccelThread::Single => "single"@,
        ManifestQemuMachineAccelThread::Multi => "multi"@,
    }
}

impl ManifestQemuMachineAccelThread {
    /// The value this choice carries on the emulator command line.
    pub fn arg_name(&self) -> (r: &'static str)
        ensures
            r@ == accel_thread_name(*self),
    {
        match *self {
            ManifestQemuMachineAccelThread::Single => "single",
            ManifestQemuMachineAccelThread::Multi => "multi",
        }
    }
}

/// The bus a drive is attached to.
#[derive(Clone, Copy, Debug, PartialEq, Eq, Structural)]
pub enum ManifestQemuDriveInterface {
    NoInterface,
    IDE,
    SCSI,
    SD,
    MTD,
    Floppy,
    Pflash,
    VirtIO,
}

pub open spec fn drive_interface_name(t: ManifestQemuDriveInterface) -> Seq<char> {
    match t {
        ManifestQemuDriveInterface::NoInterface => "none"@,
        ManifestQemuDriveInterface::IDE => "ide"@,
        ManifestQemuDriveInterface::SCSI => "scsi"@,
        ManifestQemuDriveInterface::SD => "sd"@,
        ManifestQemuDriveInterface::MTD => "mtd"@,
        ManifestQemuDriveInterface::Floppy => "floppy"@,
        ManifestQemuDriveInterface::Pflash => "pflash"@,
        ManifestQemuDriveInterface::VirtIO => "virtio"@,
    }
}

impl ManifestQemuDriveInterface {
    /// The name this bus carries on the emulator command line.
    pub fn arg_name(&self) -> (r: &'static str)
        ensures
            r@ == drive_interface_name(*self),
    {
        match *self {
            ManifestQemuDriveInterface::NoInterface => "none",
            ManifestQemuDriveInterface::IDE => "ide",
            ManifestQemuDriveInterface::SCSI => "scsi",
            ManifestQemuDriveInterface::SD => "sd",
            ManifestQemuDriveInterface::MTD => "mtd",
            ManifestQemuDriveInterface::Floppy => "floppy",
            ManifestQemuDriveInterface::Pflash => "pflash",
            ManifestQemuDriveInterface::VirtIO => "virtio",
        }
    }
}

/// The digit character of a value below ten.
pub open spec fn digit_char(d: nat) -> char {
    if d == 0 {
        '0'
    } else if d == 1 {
        '1'
    } else if d == 2 {
        '2'
    } else if d == 3 {
        '3'
    } else if d == 4 {
        '4'
    } else if d == 5 {
        '5'
    } else if d == 6 {
        '6'
    } else if d == 7 {
        '7'
    } else if d == 8 {
        '8'
    } else {
        '9'
    }
}

/// The decimal rendering of `n`, most significant digit first, without
/// leading zeroes (a single zero for zero).
pub open spec fn dec_digits(n: nat) -> Seq<char>
    decreases n,
{
    if n < 10 {
        seq![digit_char(n)]
    } else {
        dec_digits(n / 10).push(digit_char(n % 10))
    }
}

fn digit_str(d: u64) -> (r: &'static str)
    requires
        d < 10,
    ensures
        r@ == seq![digit_char(d as nat)],
{
    let r: &'static str = match d {
        0 => "0",
        1 => "1",
        2 => "2",
        3 => "3",
        4 => "4",
        5 => "5",
        6 => "6",
        7 => "7",
        8 => "8",
        _ => "9",
    };
    proof {
        reveal_strlit("0");
        reveal_strlit("1");
        reveal_strlit("2");
        reveal_strlit("3");
        reveal_strlit("4");
        reveal_strlit("5");
        reveal_strlit("6");
        reveal_strlit("7");
        reveal_strlit("8");
        reveal_strlit("9");
    }
    r
}

/// Renders `n` in decimal.
pub fn decimal(n: u64) -> (s: String)
    ensures
        s@ == dec_digits(n as nat),
    decreases n,
{
    if n < 10 {
        let mut s = String::new();
        s.append(digit_str(n));
        proof {
            assert(s@ =~= dec_digits(n as nat));
        }
        s
    } else {
        let mut s = decimal(n / 10);
        s.append(digit_str(n % 10));
        proof {
            assert(s@ =~= dec_digits(n as nat));
        }
        s
    }
}

/// The processor section of the run manifest: the model name and the
/// topology counts to emulate.
#[derive(Clone, Debug, PartialEq, Eq)]
pub struct ManifestQemuCpu {
    pub kind: String,
    pub cpus: Option<usize>,
    pub cores: Option<usize>,
    pub threads: Option<usize>,
    pub dies: Option<usize>,
    pub sockets: Option<usize>,
    pub maxcpus: Option<usize>,
}

/// One optional topology count as it appears in the value string: its key
/// followed by the count in decimal, or nothing when absent.
pub open spec fn count_piece(key: Seq<char>, v: Option<usize>) -> Seq<char> {
    match v {
        Some(n) => key + dec_digits(n as nat),
        None => Seq::<char>::empty(),
    }
}

/// The topology value string: the given counts, each with its key, in the
/// fixed key order.  Every key after the first carries its separating comma
/// unconditionally, so the string starts with a comma when `cpus` is absent
/// but a later count is given.
pub open spec fn smp_value(c: ManifestQemuCpu) -> Seq<char> {
    count_piece("cpus="@, c.cpus) + count_piece(",cores="@, c.cores) + count_piece(
        ",threads="@,
        c.threads,
    ) + count_piece(",dies="@, c.dies) + count_piece(",sockets="@, c.sockets) + count_piece(
        ",maxcpus="@,
        c.maxcpus,
    )
}

/// Appends one optional topology count to the value string being built.
fn append_count(s: &mut String, key: &'static str, v: Option<usize>)
    ensures
        final(s)@ == old(s)@ + count_piece(key@, v),
{
    if let Some(n) = v {
        s.append(key);
        let d = decimal(n as u64);
        s.append(d.as_str());
    } else {
        proof {
            assert(s@ =~= s@ + count_piece(key@, v));
        }
    }
}

/// The argument views `to_args` appends: the model under `-cpu` when it is
/// named, then the topology under `-smp` when any count is given.
pub open spec fn cpu_arg_views(c: ManifestQemuCpu) -> Seq<Seq<char>> {
    (if c.kind@.len() > 0 {
        seq!["-cpu"@, c.kind@]
    } else {
        Seq::<Seq<char>>::empty()
    }) + (if smp_value(c).len() > 0 {
        seq!["-smp"@, smp_value(c)]
    } else {
        Seq::<Seq<char>>::empty()
    })
}

impl ManifestQemuCpu {
    /// Appends this section's emulator arguments to `args`.
    pub fn to_args(&self, args: &mut Vec<String>)
        ensures
            final(args)@.len() == old(args)@.len() + cpu_arg_views(*self).len(),
            forall|k: int| 0 <= k < old(args)@.len() ==> final(args)@[k] == old(args)@[k],
            forall|k: int|
                0 <= k < cpu_arg_views(*self).len() ==> (#[trigger] final(args)@[old(args)@.len()
                    + k])@ == cpu_arg_views(*self)[k],
    {
        let mut smp = String::new();
        append_count(&mut smp, "cpus=", self.cpus);
        append_count(&mut smp, ",cores=", self.cores);
        append_count(&mut smp, ",threads=", self.threads);
        append_count(&mut smp, ",dies=", self.dies);
        append_count(&mut smp, ",sockets=", self.sockets);
        append_count(&mut smp, ",maxcpus=", self.maxcpus);
        proof {
            assert(smp@ =~= smp_value(*self));
        }
        let ghost n0 = args@.len();
        if !self.kind.as_str().is_empty() {
            args.push(String::from_str("-cpu"));
            args.push(self.kind.clone());
        }
        if !smp.as_str().is_empty() {
            args.push(String::from_str("-smp"));
            args.push(smp);
        }
        proof {
            assert forall|k: int|
                0 <= k < cpu_arg_views(*self).len() implies (#[trigger] args@[n0 + k])@
                == cpu_arg_views(*self)[k] by {
            }
        }
    }
}

} // verus!
