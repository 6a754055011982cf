use holycontainer::virtio::{le_vec, VirtioBlock, VirtioConsole, VirtioNet, VIRTIO_BLK_S_IOERR};
use holycontainer::vmm::{
    handle_exit, long_mode_registers, ExitAction, StopReason, VirtualMachine, BOOT_PARAMS_ADDR, CMDLINE_ADDR,
    INITRD_LOAD_ADDR, KERNEL_LOAD_ADDR, SERIAL_PORT, SHUTDOWN_PORT,
};
use holycontainer::winhv::{
    WHV_REGISTER_NAME, WHV_REGISTER_VALUE, WHV_RUN_VP_EXIT_CONTEXT, WHV_RUN_VP_EXIT_DETAILS, WHV_RUN_VP_EXIT_REASON,
    WHV_VP_EXIT_CONTEXT, WHV_X64_IO_PORT_ACCESS_CONTEXT, WHV_X64_SEGMENT_REGISTER,
};

#[test]
fn block_write_then_read_gives_the_data() {
    let mut b = VirtioBlock::new(vec![7u8; 1024], false);
    assert_eq!(b.capacity_sectors(), 2);
    let data: Vec<u8> = (0..512).map(|i| (i % 251) as u8).collect();
    assert_eq!(b.write_sectors(1, &data), Ok(()));
    assert_eq!(b.read_sectors(1, 1).unwrap(), data);
    assert_eq!(b.read_sectors(0, 1).unwrap(), vec![7u8; 512]);
    assert_eq!(b.read_sectors(2, 1), Err(VIRTIO_BLK_S_IOERR));
}

#[test]
fn block_write_past_the_end_grows_with_zeros() {
    let mut b = VirtioBlock::new(vec![1u8; 512], false);
    assert_eq!(b.write_sectors(2, &[9u8; 512]), Ok(()));
    assert_eq!(b.capacity_sectors(), 3);
    assert_eq!(b.read_sectors(1, 1).unwrap(), vec![0u8; 512]);
    assert_eq!(b.read_sectors(2, 1).unwrap(), vec![9u8; 512]);
    let mut ro = VirtioBlock::new(vec![1u8; 512], true);
    assert_eq!(ro.write_sectors(0, &[2u8; 512]), Err(VIRTIO_BLK_S_IOERR));
    assert_eq!(ro.read_sectors(0, 1).unwrap(), vec![1u8; 512]);
}

#[test]
fn block_config_space_layout() {
    let b = VirtioBlock::new(vec![0u8; 4096], false);
    let c = b.config_space();
    assert_eq!(c.len(), 60);
    assert_eq!(&c[0..8], &[8, 0, 0, 0, 0, 0, 0, 0]);
    assert_eq!(&c[8..12], &[0, 16, 0, 0]);
    assert_eq!(&c[12..16], &[128, 0, 0, 0]);
    assert_eq!(&c[20..24], &[0, 2, 0, 0]);
    assert_eq!(le_vec(0x0102, 3), vec![2, 1, 0]);
}

#[test]
fn console_queues_in_order() {
    let mut c = VirtioConsole::new();
    assert!(!c.has_input());
    c.queue_input(b"ab");
    assert!(c.has_input());
    assert_eq!(c.read_byte(), Some(b'a'));
    assert_eq!(c.read_byte(), Some(b'b'));
    assert_eq!(c.read_byte(), None);
    c.record_output(b'h');
    c.record_output(b'i');
    assert_eq!(c.get_output(), "hi");
    assert_eq!(c.get_output(), "");
}

#[test]
fn net_queues_in_order() {
    let mut n = VirtioNet::new();
    assert_eq!(n.config_space(), vec![0x52, 0x54, 0x00, 0x12, 0x34, 0x56]);
    n.handle_tx(vec![1]);
    n.handle_tx(vec![2]);
    n.inject_packet(vec![3]);
    assert_eq!(n.get_tx_packet(), Some(vec![1]));
    assert_eq!(n.get_tx_packet(), Some(vec![2]));
    assert_eq!(n.get_tx_packet(), None);
}

#[test]
fn guest_memory_write_then_read() {
    let mut vm = VirtualMachine::from_memory(vec![0u8; 0x2000]);
    assert_eq!(vm.guest_mem_size(), 0x2000);
    assert!(vm.write_guest_mem(0x10, &[1, 2, 3]).is_ok());
    assert_eq!(vm.read_guest_mem(0x0f, 5).unwrap(), vec![0, 1, 2, 3, 0]);
    assert!(vm.write_guest_mem(0x1fff, &[1, 2]).is_err());
    assert!(vm.read_guest_mem(0x1fff, 2).is_err());
}

#[test]
fn page_tables_and_gdt() {
    let mut vm = VirtualMachine::from_memory(vec![0u8; 0x6000]);
    assert!(vm.setup_page_tables().is_ok());
    assert!(vm.setup_gdt().is_ok());
    assert_eq!(vm.read_guest_mem(0x2000, 8).unwrap(), vec![0x03, 0x30, 0, 0, 0, 0, 0, 0]);
    assert_eq!(vm.read_guest_mem(0x3000, 8).unwrap(), vec![0x03, 0x40, 0, 0, 0, 0, 0, 0]);
    assert_eq!(vm.read_guest_mem(0x4008, 8).unwrap(), vec![0x83, 0, 0x20, 0, 0, 0, 0, 0]);
    assert_eq!(vm.read_guest_mem(0x1008, 8).unwrap(), vec![0xFF, 0xFF, 0, 0, 0, 0x9A, 0xAF, 0]);
    assert_eq!(vm.read_guest_mem(0x1010, 8).unwrap(), vec![0xFF, 0xFF, 0, 0, 0, 0x92, 0xCF, 0]);
    let mut small = VirtualMachine::from_memory(vec![0u8; 0x100]);
    assert!(small.setup_page_tables().is_err());
}

fn fake_kernel(setup_sects: u8, payload: &[u8]) -> Vec<u8> {
    let mut k = vec![0u8; (setup_sects as usize + 1) * 512];
    k[0x1F1] = setup_sects;
    k[0x202..0x206].copy_from_slice(b"HdrS");
    k.extend_from_slice(payload);
    k
}

#[test]
fn kernel_initrd_and_boot_params() {
    let mut vm = VirtualMachine::from_memory(vec![0u8; 0x1100000]);
    let kernel = fake_kernel(2, &[0xAA, 0xBB, 0xCC]);
    assert_eq!(vm.load_kernel_image(&kernel).unwrap(), 3);
    assert_eq!(vm.read_guest_mem(KERNEL_LOAD_ADDR, 3).unwrap(), vec![0xAA, 0xBB, 0xCC]);
    assert!(vm.load_kernel_image(&vec![0u8; 0x300]).is_err());
    assert!(vm.load_kernel_image(&vec![0u8; 0x10]).is_err());
    assert_eq!(vm.load_initrd_image(&[5, 6]).unwrap(), 2);
    assert_eq!(vm.read_guest_mem(INITRD_LOAD_ADDR, 2).unwrap(), vec![5, 6]);
    assert!(vm.setup_boot_params(3, 2, "console=ttyS0").is_ok());
    assert_eq!(vm.read_guest_mem(CMDLINE_ADDR, 14).unwrap(), b"console=ttyS0\0".to_vec());
    assert_eq!(vm.read_guest_mem(BOOT_PARAMS_ADDR + 0x202, 4).unwrap(), b"HdrS".to_vec());
    assert_eq!(vm.read_guest_mem(BOOT_PARAMS_ADDR + 0x21C, 4).unwrap(), vec![2, 0, 0, 0]);
    assert_eq!(vm.read_guest_mem(BOOT_PARAMS_ADDR + 0x1E8, 1).unwrap(), vec![2]);
    let mut tiny = VirtualMachine::from_memory(vec![0u8; 0x100000]);
    assert!(tiny.load_kernel_image(&kernel).is_err());
}

#[test]
fn long_mode_register_setup() {
    let (names, values) = long_mode_registers();
    assert_eq!(names.len(), 13);
    assert_eq!(values.len(), 13);
    assert_eq!(names[4].code(), WHV_REGISTER_NAME::Rip.code());
    assert_eq!(names[4].code(), 0x10);
    match values[4] {
        WHV_REGISTER_VALUE::Reg64(v) => assert_eq!(v, KERNEL_LOAD_ADDR),
        _ => panic!("RIP is a 64-bit value"),
    }
    match values[0] {
        WHV_REGISTER_VALUE::Reg64(v) => assert_eq!(v, 0x80050033),
        _ => panic!("CR0 is a 64-bit value"),
    }
    match values[12] {
        WHV_REGISTER_VALUE::Table(t) => assert_eq!((t.Base, t.Limit), (0x1000, 23)),
        _ => panic!("GDTR is a table value"),
    }
}

fn seg() -> WHV_X64_SEGMENT_REGISTER {
    WHV_X64_SEGMENT_REGISTER { Base: 0, Limit: 0, Selector: 0, Attributes: 0 }
}

fn io_exit(port: u16, byte: u8, write: bool) -> WHV_RUN_VP_EXIT_CONTEXT {
    WHV_RUN_VP_EXIT_CONTEXT {
        ExitReason: WHV_RUN_VP_EXIT_REASON::X64IoPortAccess,
        Reserved: 0,
        VpContext: WHV_VP_EXIT_CONTEXT {
            ExecutionState: 0,
            InstructionLength_Cr8: 0x21,
            Reserved: 0,
            Cs: seg(),
            Rip: 0x1000,
            Rflags: 2,
        },
        Anonymous: WHV_RUN_VP_EXIT_DETAILS::IoPortAccess(WHV_X64_IO_PORT_ACCESS_CONTEXT {
            InstructionByteCount: 1,
            Reserved: [0; 3],
            InstructionBytes: [0; 16],
            AccessInfo: if write { 1 } else { 0 },
            PortNumber: port,
            Reserved2: [0; 3],
            Rax: 0x4100 | byte as u64,
            Rcx: 0,
            Rsi: 0,
            Rdi: 0,
            Ds: seg(),
            Es: seg(),
        }),
    }
}

#[test]
fn exits_collect_console_lines_and_stop() {
    let mut pending = Vec::new();
    match handle_exit(&io_exit(SERIAL_PORT, b'o', true), &mut pending) {
        ExitAction::Resume { rip, line } => assert_eq!((rip, line), (0x1001, None)),
        _ => panic!("a console write resumes"),
    }
    match handle_exit(&io_exit(SERIAL_PORT, b'k', true), &mut pending) {
        ExitAction::Resume { line, .. } => assert_eq!(line, None),
        _ => panic!("a console write resumes"),
    }
    match handle_exit(&io_exit(SERIAL_PORT, b'\n', true), &mut pending) {
        ExitAction::Resume { line, .. } => assert_eq!(line, Some(b"ok\n".to_vec())),
        _ => panic!("a console write resumes"),
    }
    assert!(pending.is_empty());
    match handle_exit(&io_exit(SERIAL_PORT, b'x', false), &mut pending) {
        ExitAction::Resume { rip, line } => assert_eq!((rip, line), (0x1001, None)),
        _ => panic!("a port read resumes"),
    }
    assert!(pending.is_empty());
    assert!(matches!(
        handle_exit(&io_exit(SHUTDOWN_PORT, 0, true), &mut pending),
        ExitAction::Stop(StopReason::Shutdown)
    ));
    let mut halt = io_exit(0, 0, false);
    halt.ExitReason = WHV_RUN_VP_EXIT_REASON::X64Halt;
    halt.Anonymous = WHV_RUN_VP_EXIT_DETAILS::Other;
    assert!(matches!(handle_exit(&halt, &mut pending), ExitAction::Stop(StopReason::Halt)));
    assert_eq!(WHV_RUN_VP_EXIT_REASON::from_code(0x08).map(|r| r.code()), Some(0x08));
    assert!(WHV_RUN_VP_EXIT_REASON::from_code(0x7777).is_none());
}
