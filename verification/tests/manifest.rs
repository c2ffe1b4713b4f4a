use kmem::disk::{ManifestDiskFilesystem, ManifestDiskFilesystemFlags, ManifestDiskTable};
use kmem::qemu::{
    decimal, ManifestQemuCpu, ManifestQemuDriveInterface, ManifestQemuError,
    ManifestQemuMachineAccelThread, ManifestQemuMachineKernelIRQChip, ManifestQemuMachineType,
};
use kmem::resolve::ResolveError;

#[test]
fn enum_names_match_the_manifest_vocabulary() {
    assert_eq!(ManifestQemuMachineType::Q35.arg_name(), "q35");
    assert_eq!(ManifestQemuMachineType::PC.arg_name(), "pc");
    assert_eq!(ManifestQemuMachineKernelIRQChip::On.arg_name(), "on");
    assert_eq!(ManifestQemuMachineKernelIRQChip::Off.arg_name(), "off");
    assert_eq!(ManifestQemuMachineKernelIRQChip::Split.arg_name(), "split");
    assert_eq!(ManifestQemuMachineAccelThread::Single.arg_name(), "single");
    assert_eq!(ManifestQemuMachineAccelThread::Multi.arg_name(), "multi");
    assert_eq!(ManifestQemuDriveInterface::NoInterface.arg_name(), "none");
    assert_eq!(ManifestQemuDriveInterface::IDE.arg_name(), "ide");
    assert_eq!(ManifestQemuDriveInterface::SCSI.arg_name(), "scsi");
    assert_eq!(ManifestQemuDriveInterface::SD.arg_name(), "sd");
    assert_eq!(ManifestQemuDriveInterface::MTD.arg_name(), "mtd");
    assert_eq!(ManifestQemuDriveInterface::Floppy.arg_name(), "floppy");
    assert_eq!(ManifestQemuDriveInterface::Pflash.arg_name(), "pflash");
    assert_eq!(ManifestQemuDriveInterface::VirtIO.arg_name(), "virtio");
    assert_eq!(ManifestDiskTable::GPT.manifest_name(), "gpt");
    assert_eq!(ManifestDiskFilesystem::FAT32.manifest_name(), "fat32");
    assert_eq!(ManifestDiskFilesystemFlags::Boot.manifest_name(), "boot");
    assert_eq!(ManifestDiskFilesystemFlags::ESP.manifest_name(), "esp");
}

#[test]
fn decimal_renders_exactly() {
    assert_eq!(decimal(0), "0");
    assert_eq!(decimal(7), "7");
    assert_eq!(decimal(10), "10");
    assert_eq!(decimal(4096), "4096");
    assert_eq!(decimal(18446744073709551615), "18446744073709551615");
}

fn cpu(kind: &str) -> ManifestQemuCpu {
    ManifestQemuCpu {
        kind: kind.to_string(),
        cpus: None,
        cores: None,
        threads: None,
        dies: None,
        sockets: None,
        maxcpus: None,
    }
}

#[test]
fn cpu_args_with_full_topology() {
    let mut c = cpu("host");
    c.cpus = Some(4);
    c.cores = Some(2);
    c.threads = Some(2);
    c.dies = Some(1);
    c.sockets = Some(1);
    c.maxcpus = Some(8);
    let mut args: Vec<String> = vec!["-serial".to_string()];
    c.to_args(&mut args);
    assert_eq!(
        args,
        vec![
            "-serial".to_string(),
            "-cpu".to_string(),
            "host".to_string(),
            "-smp".to_string(),
            "cpus=4,cores=2,threads=2,dies=1,sockets=1,maxcpus=8".to_string(),
        ]
    );
}

#[test]
fn cpu_args_without_topology() {
    let c = cpu("qemu64");
    let mut args: Vec<String> = vec![];
    c.to_args(&mut args);
    assert_eq!(args, vec!["-cpu".to_string(), "qemu64".to_string()]);
}

#[test]
fn cpu_args_keep_the_writers_comma_quirk() {
    // Without a leading `cpus=` entry the first topology key keeps its
    // separating comma: the separator is emitted unconditionally.
    let mut c = cpu("host");
    c.cores = Some(2);
    let mut args: Vec<String> = vec![];
    c.to_args(&mut args);
    assert_eq!(
        args,
        vec!["-cpu".to_string(), "host".to_string(), "-smp".to_string(), ",cores=2".to_string()]
    );
}

#[test]
fn cpu_args_with_empty_model_name() {
    let mut c = cpu("");
    c.cpus = Some(2);
    let mut args: Vec<String> = vec![];
    c.to_args(&mut args);
    assert_eq!(args, vec!["-smp".to_string(), "cpus=2".to_string()]);
}

#[test]
fn error_variants_carry_their_data() {
    let e = ResolveError::UnimplementedScheme("ftp".to_string());
    assert_eq!(e, ResolveError::UnimplementedScheme("ftp".to_string()));
    let e = ResolveError::InvalidQueryParameter("profile".to_string(), "debug|release".to_string());
    assert!(matches!(e, ResolveError::InvalidQueryParameter(_, _)));
    let e = ResolveError::BuildFailed("init".to_string(), 101);
    assert!(matches!(e, ResolveError::BuildFailed(_, 101)));
    let e = ManifestQemuError::Resolve(ResolveError::Io);
    assert!(matches!(e, ManifestQemuError::Resolve(ResolveError::Io)));
    assert_eq!(ManifestQemuError::Io, ManifestQemuError::Io);
}
