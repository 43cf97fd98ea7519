use loader_core::descriptor::{serialize_descriptors, MemoryDescriptor};
use loader_core::error::LoaderError;
use loader_core::firmware::{
    exit_outcome, exit_request, reserve_outcome, reserve_request, AllocationMode, FirmwareReply,
    FirmwareRequest,
};
use loader_core::handoff::{Handoff, HandoffPolicy, NextStep};
use loader_core::region::RegionReservation;

const CONVENTIONAL: u32 = 7;
const RESERVED: u32 = 0;
const LOADER_DATA: u32 = 2;

fn range(memory_type: u32, physical_start: u64, page_count: u64) -> MemoryDescriptor {
    MemoryDescriptor {
        memory_type,
        reserved_pad: 0,
        physical_start,
        virtual_start: 0,
        page_count,
        attribute_bits: 0,
    }
}

/// A firmware that keeps a memory map and a key. Every allocation that it
/// grants changes the key, and it ends the boot services only for the key
/// of the moment.
struct ModelFirmware {
    records: Vec<MemoryDescriptor>,
    stride: usize,
    key: u64,
    stale_exits: usize,
    deny_pages: usize,
    keep_map_on_denial: bool,
    exit_status_other: bool,
    log: Vec<FirmwareRequest>,
    exited: bool,
}

impl ModelFirmware {
    fn holding(records: Vec<MemoryDescriptor>) -> ModelFirmware {
        ModelFirmware {
            records,
            stride: 48,
            key: 100,
            stale_exits: 0,
            deny_pages: 0,
            keep_map_on_denial: false,
            exit_status_other: false,
            log: Vec::new(),
            exited: false,
        }
    }

    fn map(&self) -> Vec<u8> {
        serialize_descriptors(&self.records, self.stride).unwrap()
    }

    fn answer(&mut self, request: FirmwareRequest) -> FirmwareReply {
        assert!(!self.exited);
        self.log.push(request);
        match request {
            FirmwareRequest::GetMemoryMap { buffer_size } => {
                let map = self.map();
                if buffer_size < map.len() {
                    FirmwareReply::BufferTooSmall {
                        required_size: map.len(),
                        descriptor_size: self.stride,
                    }
                } else {
                    FirmwareReply::MemoryMap {
                        map,
                        descriptor_size: self.stride,
                        map_key: self.key,
                    }
                }
            }
            FirmwareRequest::AllocatePool { .. } => {
                self.key += 1;
                FirmwareReply::Granted
            }
            FirmwareRequest::AllocatePages { mode, memory_type, page_count, address } => {
                assert_eq!(mode, AllocationMode::FixedAddress);
                assert_eq!(memory_type, LOADER_DATA);
                if self.deny_pages > 0 {
                    self.deny_pages -= 1;
                    if !self.keep_map_on_denial {
                        let first = self.records.iter().position(|d| d.physical_start == address);
                        if let Some(first) = first {
                            self.records[first].memory_type = RESERVED;
                        }
                        self.key += 1;
                    }
                    return FirmwareReply::Denied;
                }
                self.key += 1;
                self.records.push(range(LOADER_DATA, address, page_count));
                FirmwareReply::Granted
            }
            FirmwareRequest::ExitBootServices { map_key } => {
                if self.exit_status_other {
                    FirmwareReply::Rejected
                } else if self.stale_exits > 0 {
                    self.stale_exits -= 1;
                    FirmwareReply::StaleKey
                } else if map_key != self.key {
                    FirmwareReply::StaleKey
                } else {
                    self.exited = true;
                    FirmwareReply::Exited
                }
            }
        }
    }

    fn count(&self, wanted: fn(&FirmwareRequest) -> bool) -> usize {
        self.log.iter().filter(|r| wanted(r)).count()
    }
}

fn is_probe(request: &FirmwareRequest) -> bool {
    matches!(request, FirmwareRequest::GetMemoryMap { buffer_size: 0 })
}

fn is_page_allocation(request: &FirmwareRequest) -> bool {
    matches!(request, FirmwareRequest::AllocatePages { .. })
}

fn is_exit(request: &FirmwareRequest) -> bool {
    matches!(request, FirmwareRequest::ExitBootServices { .. })
}

fn run(firmware: &mut ModelFirmware, policy: HandoffPolicy) -> Handoff {
    let mut handoff = Handoff::new(policy);
    let mut replies = 0u64;
    let bound = (policy.max_refetches as u64 + 1) * (2 * policy.max_map_retries as u64 + 5);
    while let NextStep::Call(request) = handoff.next_step() {
        handoff = handoff.advance(firmware.answer(request));
        replies += 1;
        assert!(replies <= bound);
    }
    handoff
}

fn policy(required_pages: u64, max_refetches: u32) -> HandoffPolicy {
    HandoffPolicy { required_pages, max_map_retries: 4, max_refetches }
}

fn usual_map() -> Vec<MemoryDescriptor> {
    vec![range(CONVENTIONAL, 0x10_0000, 20), range(RESERVED, 0x0, 1)]
}

#[test]
fn reserve_request_is_a_fixed_address_allocation_of_loader_data() {
    let region = RegionReservation { physical_start: 0x10_0000, page_count: 10 };
    assert_eq!(
        reserve_request(&region),
        FirmwareRequest::AllocatePages {
            mode: AllocationMode::FixedAddress,
            memory_type: 2,
            page_count: 10,
            address: 0x10_0000,
        }
    );
}

#[test]
fn reserve_outcome_tells_grant_refusal_and_the_rest() {
    assert_eq!(reserve_outcome(&FirmwareReply::Granted), Ok(()));
    assert_eq!(reserve_outcome(&FirmwareReply::Denied), Err(LoaderError::AllocationFailure));
    assert_eq!(reserve_outcome(&FirmwareReply::Rejected), Err(LoaderError::FirmwareRejection));
    assert_eq!(reserve_outcome(&FirmwareReply::Exited), Err(LoaderError::FirmwareRejection));
    assert_eq!(reserve_outcome(&FirmwareReply::StaleKey), Err(LoaderError::FirmwareRejection));
    assert_eq!(
        reserve_outcome(&FirmwareReply::BufferTooSmall { required_size: 1, descriptor_size: 40 }),
        Err(LoaderError::FirmwareRejection)
    );
}

#[test]
fn exit_request_carries_the_token() {
    assert_eq!(exit_request(0xFEED), FirmwareRequest::ExitBootServices { map_key: 0xFEED });
}

#[test]
fn exit_outcome_tells_success_stale_key_and_the_rest() {
    assert_eq!(exit_outcome(&FirmwareReply::Exited), Ok(()));
    assert_eq!(exit_outcome(&FirmwareReply::StaleKey), Err(LoaderError::StaleToken));
    assert_eq!(exit_outcome(&FirmwareReply::Rejected), Err(LoaderError::FirmwareRejection));
    assert_eq!(exit_outcome(&FirmwareReply::Granted), Err(LoaderError::FirmwareRejection));
    assert_eq!(exit_outcome(&FirmwareReply::Denied), Err(LoaderError::FirmwareRejection));
    assert_eq!(
        exit_outcome(&FirmwareReply::MemoryMap { map: vec![], descriptor_size: 40, map_key: 1 }),
        Err(LoaderError::FirmwareRejection)
    );
}

#[test]
fn handoff_starts_with_the_size_probe() {
    let handoff = Handoff::new(policy(10, 3));
    assert_eq!(
        handoff.next_step(),
        NextStep::Call(FirmwareRequest::GetMemoryMap { buffer_size: 0 })
    );
    assert_eq!(handoff.refetches(), 0);
    assert_eq!(handoff.reservation(), None);
    assert!(handoff.into_outcome().is_none());
}

#[test]
fn stale_exit_once_then_success_takes_exactly_one_refetch() {
    let mut firmware = ModelFirmware::holding(usual_map());
    let handoff = run(&mut firmware, policy(10, 3));
    assert_eq!(handoff.next_step(), NextStep::Proceed);
    assert_eq!(handoff.refetches(), 1);
    assert_eq!(
        handoff.reservation(),
        Some(RegionReservation { physical_start: 0x10_0000, page_count: 10 })
    );
    assert!(firmware.exited);
    assert_eq!(firmware.count(is_probe), 2);
    assert_eq!(firmware.count(is_page_allocation), 1);
    assert_eq!(firmware.count(is_exit), 2);
    assert_eq!(
        firmware.log,
        vec![
            FirmwareRequest::GetMemoryMap { buffer_size: 0 },
            FirmwareRequest::AllocatePool { memory_type: 2, size: 96 + 768 },
            FirmwareRequest::GetMemoryMap { buffer_size: 96 + 768 },
            FirmwareRequest::AllocatePages {
                mode: AllocationMode::FixedAddress,
                memory_type: 2,
                page_count: 10,
                address: 0x10_0000,
            },
            FirmwareRequest::ExitBootServices { map_key: 101 },
            FirmwareRequest::GetMemoryMap { buffer_size: 0 },
            FirmwareRequest::AllocatePool { memory_type: 2, size: 144 + 768 },
            FirmwareRequest::GetMemoryMap { buffer_size: 144 + 768 },
            FirmwareRequest::ExitBootServices { map_key: 103 },
        ]
    );
    let handover = handoff.into_outcome().unwrap().unwrap();
    assert_eq!(handover.region, RegionReservation { physical_start: 0x10_0000, page_count: 10 });
    assert_eq!(handover.snapshot.freshness_token(), 103);
    assert_eq!(
        handover.snapshot.descriptors(),
        &[range(RESERVED, 0x0, 1), range(CONVENTIONAL, 0x10_0000, 20), range(LOADER_DATA, 0x10_0000, 10)]
    );
}

#[test]
fn exit_that_succeeds_at_once_takes_no_refetch() {
    let handoff = Handoff::new(policy(10, 3))
        .advance(FirmwareReply::BufferTooSmall { required_size: 96, descriptor_size: 48 })
        .advance(FirmwareReply::Granted)
        .advance(FirmwareReply::MemoryMap {
            map: serialize_descriptors(&usual_map(), 48).unwrap(),
            descriptor_size: 48,
            map_key: 5,
        })
        .advance(FirmwareReply::Granted);
    assert_eq!(
        handoff.next_step(),
        NextStep::Call(FirmwareRequest::ExitBootServices { map_key: 5 })
    );
    let handoff = handoff.advance(FirmwareReply::Exited);
    assert_eq!(handoff.next_step(), NextStep::Proceed);
    assert_eq!(handoff.refetches(), 0);
    let handover = handoff.into_outcome().unwrap().unwrap();
    assert_eq!(handover.snapshot.freshness_token(), 5);
    assert_eq!(handover.region.end_address(), Some(0x10_A000));
}

#[test]
fn stale_exit_beyond_the_bound_halts_with_stale_token() {
    for max_refetches in [0u32, 1, 3] {
        let mut firmware = ModelFirmware::holding(usual_map());
        firmware.stale_exits = usize::MAX;
        let handoff = run(&mut firmware, policy(10, max_refetches));
        assert_eq!(handoff.next_step(), NextStep::Halt(LoaderError::StaleToken));
        assert_eq!(handoff.refetches(), max_refetches);
        assert_eq!(firmware.count(is_exit), max_refetches as usize + 1);
        assert_eq!(firmware.count(is_probe), max_refetches as usize + 1);
        assert_eq!(firmware.count(is_page_allocation), 1);
        assert!(!firmware.exited);
        assert_eq!(handoff.into_outcome().unwrap().unwrap_err(), LoaderError::StaleToken);
    }
}

#[test]
fn no_suitable_region_halts_without_asking_for_pages() {
    let mut firmware = ModelFirmware::holding(vec![
        range(CONVENTIONAL, 0x10_0000, 9),
        range(RESERVED, 0x0, 64),
        range(LOADER_DATA, 0x20_0000, 32),
    ]);
    let handoff = run(&mut firmware, policy(10, 3));
    assert_eq!(handoff.next_step(), NextStep::Halt(LoaderError::NoSuitableRegion));
    assert_eq!(firmware.count(is_page_allocation), 0);
    assert_eq!(firmware.count(is_exit), 0);
    assert_eq!(handoff.reservation(), None);
    assert_eq!(handoff.refetches(), 0);
    assert_eq!(handoff.into_outcome().unwrap().unwrap_err(), LoaderError::NoSuitableRegion);
}

#[test]
fn refused_reservation_leads_to_a_fresh_map_and_another_region() {
    let mut firmware = ModelFirmware::holding(vec![
        range(CONVENTIONAL, 0x10_0000, 20),
        range(CONVENTIONAL, 0x40_0000, 20),
    ]);
    firmware.deny_pages = 1;
    let handoff = run(&mut firmware, policy(10, 3));
    assert_eq!(handoff.next_step(), NextStep::Proceed);
    assert_eq!(
        handoff.reservation(),
        Some(RegionReservation { physical_start: 0x40_0000, page_count: 10 })
    );
    assert_eq!(handoff.refetches(), 2);
    let pages: Vec<FirmwareRequest> =
        firmware.log.iter().copied().filter(is_page_allocation).collect();
    assert_eq!(
        pages,
        vec![
            FirmwareRequest::AllocatePages {
                mode: AllocationMode::FixedAddress,
                memory_type: 2,
                page_count: 10,
                address: 0x10_0000,
            },
            FirmwareRequest::AllocatePages {
                mode: AllocationMode::FixedAddress,
                memory_type: 2,
                page_count: 10,
                address: 0x40_0000,
            },
        ]
    );
    let after_refusal = firmware.log.iter().position(is_page_allocation).unwrap() + 1;
    assert_eq!(firmware.log[after_refusal], FirmwareRequest::GetMemoryMap { buffer_size: 0 });
}

#[test]
fn refused_reservation_selects_the_same_region_from_an_unchanged_map() {
    let mut firmware = ModelFirmware::holding(vec![
        range(CONVENTIONAL, 0x40_0000, 20),
        range(CONVENTIONAL, 0x10_0000, 20),
    ]);
    firmware.deny_pages = 2;
    firmware.keep_map_on_denial = true;
    let handoff = run(&mut firmware, policy(10, 5));
    assert_eq!(handoff.next_step(), NextStep::Proceed);
    assert_eq!(handoff.refetches(), 3);
    let request = FirmwareRequest::AllocatePages {
        mode: AllocationMode::FixedAddress,
        memory_type: 2,
        page_count: 10,
        address: 0x10_0000,
    };
    let pages: Vec<FirmwareRequest> =
        firmware.log.iter().copied().filter(is_page_allocation).collect();
    assert_eq!(pages, vec![request, request, request]);
    let mut at = 0;
    while at + 1 < firmware.log.len() {
        if is_page_allocation(&firmware.log[at]) && is_page_allocation(&firmware.log[at + 1]) {
            panic!("pages were asked for twice without a fresh map");
        }
        at += 1;
    }
    assert_eq!(firmware.count(is_probe), 4);
}

#[test]
fn refused_reservation_beyond_the_bound_halts_with_allocation_failure() {
    let mut firmware = ModelFirmware::holding(vec![
        range(CONVENTIONAL, 0x10_0000, 20),
        range(CONVENTIONAL, 0x40_0000, 20),
    ]);
    firmware.deny_pages = 1;
    let handoff = run(&mut firmware, policy(10, 0));
    assert_eq!(handoff.next_step(), NextStep::Halt(LoaderError::AllocationFailure));
    assert_eq!(handoff.reservation(), None);
    assert_eq!(firmware.count(is_page_allocation), 1);
    assert_eq!(firmware.count(is_exit), 0);
}

#[test]
fn other_exit_status_halts_with_firmware_rejection() {
    let mut firmware = ModelFirmware::holding(usual_map());
    firmware.exit_status_other = true;
    let handoff = run(&mut firmware, policy(10, 3));
    assert_eq!(handoff.next_step(), NextStep::Halt(LoaderError::FirmwareRejection));
    assert_eq!(handoff.refetches(), 0);
    assert_eq!(firmware.count(is_exit), 1);
    assert_eq!(
        handoff.reservation(),
        Some(RegionReservation { physical_start: 0x10_0000, page_count: 10 })
    );
}

#[test]
fn failure_of_the_reader_halts_the_handoff() {
    let handoff = Handoff::new(policy(10, 3)).advance(FirmwareReply::Rejected);
    assert_eq!(handoff.next_step(), NextStep::Halt(LoaderError::FirmwareRejection));

    let handoff = Handoff::new(policy(10, 3))
        .advance(FirmwareReply::BufferTooSmall { required_size: 96, descriptor_size: 48 })
        .advance(FirmwareReply::Denied);
    assert_eq!(handoff.next_step(), NextStep::Halt(LoaderError::AllocationFailure));
    assert_eq!(handoff.refetches(), 0);

    let handoff = Handoff::new(policy(10, 3))
        .advance(FirmwareReply::BufferTooSmall { required_size: 96, descriptor_size: 48 })
        .advance(FirmwareReply::Granted)
        .advance(FirmwareReply::MemoryMap { map: vec![0u8; 50], descriptor_size: 48, map_key: 1 });
    assert_eq!(handoff.next_step(), NextStep::Halt(LoaderError::MalformedMap));

    let mut handoff = Handoff::new(HandoffPolicy {
        required_pages: 10,
        max_map_retries: 1,
        max_refetches: 3,
    });
    for reply in [
        FirmwareReply::BufferTooSmall { required_size: 96, descriptor_size: 48 },
        FirmwareReply::Granted,
        FirmwareReply::BufferTooSmall { required_size: 96, descriptor_size: 48 },
        FirmwareReply::Granted,
        FirmwareReply::BufferTooSmall { required_size: 96, descriptor_size: 48 },
    ] {
        assert!(matches!(handoff.next_step(), NextStep::Call(_)));
        handoff = handoff.advance(reply);
    }
    assert_eq!(handoff.next_step(), NextStep::Halt(LoaderError::MapUnstable));
    assert_eq!(handoff.refetches(), 0);
}

#[test]
fn handoff_that_has_ended_stays_as_it_is() {
    let halted = Handoff::new(policy(10, 3))
        .advance(FirmwareReply::Rejected)
        .advance(FirmwareReply::Granted)
        .advance(FirmwareReply::Exited);
    assert_eq!(halted.next_step(), NextStep::Halt(LoaderError::FirmwareRejection));

    let mut firmware = ModelFirmware::holding(usual_map());
    let exited = run(&mut firmware, policy(10, 3))
        .advance(FirmwareReply::StaleKey)
        .advance(FirmwareReply::Rejected);
    assert_eq!(exited.next_step(), NextStep::Proceed);
    assert_eq!(exited.refetches(), 1);
}

#[test]
fn reply_to_another_call_halts_with_firmware_rejection() {
    let reserving = || {
        Handoff::new(policy(10, 3))
            .advance(FirmwareReply::BufferTooSmall { required_size: 96, descriptor_size: 48 })
            .advance(FirmwareReply::Granted)
            .advance(FirmwareReply::MemoryMap {
                map: serialize_descriptors(&usual_map(), 48).unwrap(),
                descriptor_size: 48,
                map_key: 5,
            })
    };
    assert!(matches!(
        reserving().next_step(),
        NextStep::Call(FirmwareRequest::AllocatePages { .. })
    ));
    assert_eq!(
        reserving().advance(FirmwareReply::Exited).next_step(),
        NextStep::Halt(LoaderError::FirmwareRejection)
    );
    assert_eq!(
        reserving().advance(FirmwareReply::StaleKey).next_step(),
        NextStep::Halt(LoaderError::FirmwareRejection)
    );
    assert_eq!(
        reserving().advance(FirmwareReply::Granted).advance(FirmwareReply::Granted).next_step(),
        NextStep::Halt(LoaderError::FirmwareRejection)
    );
    assert_eq!(
        reserving().advance(FirmwareReply::Granted).advance(FirmwareReply::Denied).next_step(),
        NextStep::Halt(LoaderError::FirmwareRejection)
    );
}
