use rewwise::bank::{DIDXDescriptor, DATASection, DIDXSection, Section, SectionBody, Soundbank};
use rewwise::error::StorageError;
use rewwise::json::Json;
use rewwise::storage::{copy_wems, read_wems, write_wems};
use rewwise::wems::{
    extract_wems, rebuild_didx_data, rebuild_didx_data_for_bench, sort_wems, wems_fit,
};

fn header(alignment: u32) -> Section {
    let text = format!(r#"{{"BKHD":{{"version":134,"wem_alignment":{alignment}}}}}"#);
    let body = SectionBody::from_json(Json::from_text(&text).unwrap()).unwrap();
    Section { magic: *b"BKHD", body }
}

fn other() -> Section {
    let body = SectionBody::from_json(Json::from_text(r#"{"STID":{"a":1}}"#).unwrap()).unwrap();
    Section { magic: *b"STID", body }
}

fn descriptors(bank: &Soundbank, i: usize) -> Vec<DIDXDescriptor> {
    match &bank.sections[i].body {
        SectionBody::DIDX(didx) => didx.descriptors.clone(),
        _ => panic!("no index"),
    }
}

fn data(bank: &Soundbank, i: usize) -> Vec<u8> {
    match &bank.sections[i].body {
        SectionBody::DATA(audio) => audio.data.clone(),
        _ => panic!("no data"),
    }
}

#[test]
fn files_are_packed_in_order_of_their_ids() {
    let mut bank = Soundbank { sections: vec![other(), header(4), other()] };
    rebuild_didx_data(&mut bank, vec![(9, vec![1, 2]), (3, vec![7, 7, 7, 7, 7])]).unwrap();
    assert_eq!(bank.sections.len(), 5);
    assert_eq!(
        descriptors(&bank, 2),
        vec![
            DIDXDescriptor { id: 3, offset: 0, size: 5 },
            DIDXDescriptor { id: 9, offset: 8, size: 2 },
        ]
    );
    assert_eq!(data(&bank, 3), vec![7, 7, 7, 7, 7, 0, 0, 0, 1, 2]);
    assert_eq!(bank.sections[2].magic, [0; 4]);
    assert_eq!(bank.sections[3].magic, [0; 4]);
}

#[test]
fn what_was_packed_is_extracted() {
    let mut bank = Soundbank { sections: vec![header(16), other()] };
    rebuild_didx_data_for_bench(&mut bank, vec![(2, vec![5; 20]), (1, vec![]), (2, vec![6])])
        .unwrap();
    assert!(bank.audio_in_range());
    assert_eq!(extract_wems(&bank), vec![(1, vec![]), (2, vec![5; 20]), (2, vec![6])]);
    bank.strip_audio();
    assert_eq!(bank.sections.len(), 2);
    assert_eq!(extract_wems(&bank).len(), 0);
}

#[test]
fn audio_needs_a_header() {
    let mut bank = Soundbank { sections: vec![other()] };
    assert!(matches!(
        rebuild_didx_data(&mut bank, vec![(1, vec![1])]),
        Err(StorageError::MissingBkhd)
    ));
    assert_eq!(bank.sections.len(), 1);
}

#[test]
fn an_alignment_that_is_no_power_of_two_masks_bits() {
    let mut bank = Soundbank { sections: vec![header(6)] };
    rebuild_didx_data(&mut bank, vec![(1, vec![1; 3]), (2, vec![2])]).unwrap();
    assert_eq!(descriptors(&bank, 1)[1].offset, (3u32 + 5) & !5);
}

#[test]
fn sorting_keeps_the_order_of_equal_ids() {
    let sorted = sort_wems(vec![(2, vec![1]), (1, vec![2]), (2, vec![3]), (1, vec![4])]);
    assert_eq!(sorted, vec![(1, vec![2]), (1, vec![4]), (2, vec![1]), (2, vec![3])]);
}

#[test]
fn files_must_fit_into_32_bits() {
    assert!(wems_fit(&vec![(1, vec![0; 10])], 16));
    assert!(!wems_fit(&vec![(1, vec![0; 10])], 0));
    assert!(wems_fit(&vec![], 0));
    assert!(!wems_fit(&vec![(1, vec![0; 10])], u32::MAX));
}

#[test]
fn files_outside_the_data_are_noticed() {
    let index = DIDXSection { descriptors: vec![DIDXDescriptor { id: 1, offset: 3, size: 2 }] };
    let bank = Soundbank {
        sections: vec![
            Section { magic: *b"DIDX", body: SectionBody::DIDX(index) },
            Section { magic: *b"DATA", body: SectionBody::DATA(DATASection { data: vec![0; 4] }) },
        ],
    };
    assert!(!bank.audio_in_range());
}

#[test]
fn an_index_without_data_holds_nothing() {
    let index = DIDXSection { descriptors: vec![DIDXDescriptor { id: 1, offset: 3, size: 2 }] };
    let bank = Soundbank {
        sections: vec![Section { magic: *b"DIDX", body: SectionBody::DIDX(index) }],
    };
    assert!(bank.audio_in_range());
    assert_eq!(extract_wems(&bank).len(), 0);
}

#[test]
fn files_come_out_of_rows_as_they_went_in() {
    let rows = write_wems(vec![(u32::MAX, vec![1]), (0, vec![])]);
    assert_eq!(rows, vec![(4294967295, vec![1]), (0, vec![])]);
    assert_eq!(read_wems(rows), vec![(u32::MAX, vec![1]), (0, vec![])]);
    assert_eq!(read_wems(vec![(-1, vec![2])]), vec![(u32::MAX, vec![2])]);
}

#[test]
fn only_files_that_are_found_and_missing_are_copied() {
    let copied = copy_wems(
        &vec![5, 6, 7, 8],
        &vec![8, 1],
        vec![Some(vec![1]), None, Some(vec![2]), Some(vec![3])],
    );
    assert_eq!(copied, vec![(5, vec![1]), (7, vec![2])]);
}
