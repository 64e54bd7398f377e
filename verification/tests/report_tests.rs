use snmp_walk::report::{if_descr_positions, IF_DESCR_BER};

#[test]
fn keeps_interface_descriptions() {
    let raws = vec![
        vec![43, 6, 1, 2, 1, 2, 2, 1, 2, 1],
        vec![43, 6, 1, 2, 1, 2, 2, 1, 3, 1],
        vec![43, 6, 1, 2, 1, 2, 2, 1, 2],
        vec![43, 6, 1, 2, 1, 1, 1, 0, 0],
        vec![43, 6, 1, 2, 1, 2, 2, 1, 2, 129, 0],
    ];
    assert_eq!(if_descr_positions(&raws), vec![0, 2, 4]);
    assert_eq!(if_descr_positions(&Vec::new()), Vec::<usize>::new());
    assert_eq!(IF_DESCR_BER, [43, 6, 1, 2, 1, 2, 2, 1, 2]);
}
