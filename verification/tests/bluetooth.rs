use loginator::bluetooth::{
    brain_data, code_digits, find_characteristic, is_brain, select_brains, BrainController,
    BrainControllerError, BrainData, CharacteristicInfo, PeripheralInfo, READ_CHAR, SERVICE_UUID,
    SYSTEM_CHAR, WRITE_CHAR,
};

fn peripheral(services: Vec<u128>, name: Option<&str>, address: &str) -> PeripheralInfo {
    PeripheralInfo {
        services,
        local_name: name.map(|n| n.to_string()),
        address: address.to_string(),
    }
}

fn scan() -> Vec<PeripheralInfo> {
    vec![
        peripheral(vec![1, 2], None, "00:00:00:00:00:01"),
        peripheral(vec![7, SERVICE_UUID], Some(" VEX_V5 \n"), "00:00:00:00:00:02"),
        peripheral(vec![SERVICE_UUID], Some("Other"), "00:00:00:00:00:03"),
    ]
}

fn characteristics() -> Vec<CharacteristicInfo> {
    vec![
        CharacteristicInfo { uuid: WRITE_CHAR, notify: false },
        CharacteristicInfo { uuid: READ_CHAR, notify: false },
        CharacteristicInfo { uuid: SYSTEM_CHAR, notify: true },
        CharacteristicInfo { uuid: READ_CHAR, notify: true },
        CharacteristicInfo { uuid: SYSTEM_CHAR, notify: false },
    ]
}

#[test]
fn uuids() {
    assert_eq!(SERVICE_UUID, 0x08590f7edb05467e875772f6faeb13d5);
    assert_eq!(WRITE_CHAR, 0x08590f7edb05467e875772f6faeb1306);
    assert_eq!(READ_CHAR, 0x08590f7edb05467e875772f6faeb1316);
    assert_eq!(SYSTEM_CHAR, 0x08590f7edb05467e875772f6faeb13e5);
}

#[test]
fn brains_are_found_by_their_service() {
    let peripherals = scan();
    assert!(!is_brain(&peripherals[0]));
    assert!(is_brain(&peripherals[1]));
    assert_eq!(select_brains(&peripherals), vec![1, 2]);
    assert_eq!(select_brains(&vec![]), Vec::<usize>::new());
}

#[test]
fn brain_data_copies_name_and_address() {
    let data = brain_data(&scan()[2]);
    assert_eq!(data.name, "Other");
    assert_eq!(data.address, "00:00:00:00:00:03");
}

#[test]
fn describe_lists_name_and_address() {
    let data = BrainData { name: "VEX".to_string(), address: "AA".to_string() };
    let text = data.describe();
    let plain = "=============== \n Name: VEX \n Address: AA";
    let blue = "\u{1b}[34m===============\u{1b}[0m \n Name: VEX \n Address: AA";
    assert!(text == plain || text == blue, "{:?}", text);
}

#[test]
fn first_characteristic_with_uuid() {
    let chars = characteristics();
    assert_eq!(find_characteristic(&chars, SYSTEM_CHAR), Some(2));
    assert_eq!(find_characteristic(&chars, WRITE_CHAR), Some(0));
    assert_eq!(find_characteristic(&chars, 5), None);
}

#[test]
fn code_digits_of_trimmed_code() {
    assert_eq!(code_digits(" 0123\n"), Some(vec![0, 1, 2, 3]));
    assert_eq!(code_digits(" 1234\n"), Some(vec![1, 2, 3, 4]));
    assert_eq!(code_digits("\u{2003}\t56\u{85}"), Some(vec![5, 6]));
    assert_eq!(code_digits("9"), Some(vec![9]));
    assert_eq!(code_digits(""), Some(vec![]));
    assert_eq!(code_digits("12a4"), None);
    assert_eq!(code_digits("1 2"), None);
    assert_eq!(code_digits("٣"), None);
}

#[test]
fn without_a_connection_requests_fail() {
    let controller = BrainController::new();
    assert!(!controller.is_connected());
    assert_eq!(
        controller.ping_brain_for_code(&characteristics()),
        Err(BrainControllerError::NoBrainConnected)
    );
    assert_eq!(controller.poll(&characteristics()), Err(BrainControllerError::NoBrainConnected));
}

#[test]
fn search_records_the_brains() {
    let mut controller = BrainController::new();
    let found = controller.search(&scan()).unwrap();
    let names: Vec<&str> = found.iter().map(|b| b.name.as_str()).collect();
    assert_eq!(names, vec![" VEX_V5 \n", "Other"]);
    assert_eq!(controller.available_brains().len(), 2);
    assert_eq!(controller.available_brains()[1].address, "00:00:00:00:00:03");
}

fn names(names: &[Option<&str>]) -> Vec<Option<String>> {
    names.iter().map(|n| n.map(|n| n.to_string())).collect()
}

#[test]
fn connect_matches_the_trimmed_name() {
    let mut controller = BrainController::new();
    controller.search(&scan()).unwrap();
    let local = names(&[Some(" VEX_V5 \n"), Some("Other")]);
    assert_eq!(BrainController::find_brain_with_name(&local, &"VEX_V5".to_string()), Some(0));
    assert_eq!(controller.connect(&local, &"VEX_V5".to_string()), Ok(0));
    assert_eq!(controller.connect(&local, &"Other".to_string()), Ok(1));
    assert_eq!(
        controller.connect(&local, &" VEX_V5 \n".to_string()),
        Err(BrainControllerError::CouldNotConnect)
    );
    assert_eq!(
        controller.connect(&local, &"vex_v5".to_string()),
        Err(BrainControllerError::CouldNotConnect)
    );
}

#[test]
fn names_are_read_at_connect_time() {
    let mut controller = BrainController::new();
    controller.search(&scan()).unwrap();
    let renamed = names(&[Some("Renamed"), Some("VEX_V5")]);
    assert_eq!(controller.connect(&renamed, &"VEX_V5".to_string()), Ok(1));
}

#[test]
fn names_are_searched_only_up_to_the_match() {
    let partly = names(&[Some("A"), None]);
    assert!(BrainController::can_search_names(&partly, &"A".to_string()));
    assert_eq!(BrainController::find_brain_with_name(&partly, &"A".to_string()), Some(0));
    assert!(!BrainController::can_search_names(&partly, &"B".to_string()));
    assert!(BrainController::can_search_names(&names(&[]), &"B".to_string()));
    assert_eq!(BrainController::find_brain_with_name(&names(&[]), &"B".to_string()), None);
}

#[test]
fn failed_link_leaves_no_connection() {
    let mut controller = BrainController::new();
    controller.search(&scan()).unwrap();
    assert_eq!(controller.connect_finished(0, false), Err(BrainControllerError::CouldNotConnect));
    assert!(!controller.is_connected());
}

#[test]
fn connected_brain_is_pinged_and_authenticated() {
    let mut controller = BrainController::new();
    controller.search(&scan()).unwrap();
    let local = names(&[Some(" VEX_V5 \n"), Some("Other")]);
    let index = controller.connect(&local, &"Other".to_string()).unwrap();
    assert_eq!(controller.connect_finished(index, true), Ok(()));
    assert!(controller.is_connected());
    let chars = characteristics();
    assert_eq!(controller.ping_brain_for_code(&chars), Ok((2, vec![0xff, 0xff, 0xff, 0xff])));
    assert_eq!(controller.authenticate(" 4321 ", &chars), (2, vec![4, 3, 2, 1]));
    assert_eq!(controller.authenticate("\u{3000}0000\u{a0}", &chars), (2, vec![0, 0, 0, 0]));
    assert_eq!(controller.poll(&chars), Ok(vec![3]));
    assert_eq!(controller.poll(&vec![]), Ok(vec![]));
}

#[test]
fn echo_decides_the_code() {
    assert_eq!(BrainController::check_code_echo(&vec![1, 2, 3], &vec![1, 2, 3]), Ok(()));
    assert_eq!(
        BrainController::check_code_echo(&vec![1, 2, 3], &vec![1, 2, 4]),
        Err(BrainControllerError::IncorrectCode)
    );
    assert_eq!(
        BrainController::check_code_echo(&vec![1, 2, 3], &vec![1, 2]),
        Err(BrainControllerError::IncorrectCode)
    );
    assert_eq!(BrainController::check_code_echo(&vec![], &vec![]), Ok(()));
}

#[test]
fn controller_error_messages() {
    assert_eq!(BrainControllerError::IncorrectCode.message(), "Incorrect code provided");
    assert_eq!(
        BrainControllerError::NoBrainConnected.message(),
        "No brain is currently connected"
    );
    assert_eq!(BrainControllerError::CouldNotConnect.message(), "Could not connect to the brain");
}

#[test]
fn unicode_white_space_is_trimmed_from_brain_names() {
    let local = names(&[Some("\u{3000}VEX\u{a0}"), Some("\t\u{2028}"), Some("")]);
    assert_eq!(BrainController::find_brain_with_name(&local, &"VEX".to_string()), Some(0));
    assert_eq!(BrainController::find_brain_with_name(&local, &" VEX".to_string()), None);
    assert_eq!(BrainController::find_brain_with_name(&local[1..].to_vec(), &"".to_string()), Some(0));
}
