//! Byte images: producing them, reopening them, appending to them.

use netcdf::error::NcError;
use netcdf::types::NumericType;
use netcdf::VarType;

#[test]
fn empty_file_round_trip() {
    let file = netcdf::create("empty.nc").unwrap();
    let bytes = file.to_bytes();
    let back = netcdf::open(&bytes).unwrap();
    assert_eq!(back.to_bytes(), bytes);
}

#[test]
fn populated_file_round_trip() {
    let mut file = netcdf::create("crabs.nc").unwrap();
    let time = file.engine_mut().add_dimension_in(0, "time", 0, true).unwrap();
    let ncrabs = file.engine_mut().add_dimension_in(0, "ncrabs", 10, false).unwrap();
    let v = file
        .engine_mut()
        .add_variable_in(
            0,
            "crab_coolness_level",
            VarType::Numeric(NumericType::I32),
            &vec![time, ncrabs],
        )
        .unwrap();
    let data: Vec<i128> = vec![42; 10];
    file.engine_mut()
        .put_values_with(v, &data, Some(&vec![0, 0]), None, None)
        .unwrap();
    file.engine_mut()
        .put_values_with(v, &data, Some(&vec![1, 0]), None, None)
        .unwrap();
    assert_eq!(file.engine().dimension_len(time).unwrap(), 2);

    let bytes = file.to_bytes();
    let back = netcdf::append(&bytes).unwrap();
    let var = back.engine().find_variable(0, "crab_coolness_level").unwrap();
    assert_eq!(back.engine().shape_of(var).unwrap(), vec![2, 10]);
    let got = back
        .engine()
        .values_with(var, None, None, None, NumericType::I32)
        .unwrap();
    assert_eq!(got, vec![42; 20]);
    // The reopened file re-encodes to the same image.
    assert_eq!(back.to_bytes(), bytes);
}

#[test]
fn append_extends_reopened_file() {
    let mut file = netcdf::create("grow.nc").unwrap();
    let t = file.engine_mut().add_dimension_in(0, "t", 0, true).unwrap();
    let v = file
        .engine_mut()
        .add_variable_in(0, "v", VarType::Numeric(NumericType::U16), &vec![t])
        .unwrap();
    file.engine_mut().put_values_with(v, &vec![1, 2, 3], None, None, None).unwrap();
    let bytes = file.to_bytes();

    let mut more = netcdf::append(&bytes).unwrap();
    let v2 = more.engine().find_variable(0, "v").unwrap();
    more.engine_mut().put_value(v2, 4, Some(&vec![3])).unwrap();
    assert_eq!(more.engine().shape_of(v2).unwrap(), vec![4]);
    let got = more.engine().values_with(v2, None, None, None, NumericType::U16).unwrap();
    assert_eq!(got, vec![1, 2, 3, 4]);
}

#[test]
fn bad_image_is_refused() {
    let e = netcdf::open(&vec![]).unwrap_err();
    assert_eq!(e, NcError::EngineError(netcdf::error::CODE_NOT_CONTAINER));
    let e = netcdf::open(&vec![1, 2, 3, 4, 5, 6, 7, 8, 9]).unwrap_err();
    assert_eq!(e, NcError::EngineError(netcdf::error::CODE_NOT_CONTAINER));
    // A truncated but otherwise valid image is refused too.
    let file = netcdf::create("t.nc").unwrap();
    let mut bytes = file.to_bytes();
    bytes.pop();
    let e = netcdf::open(&bytes).unwrap_err();
    assert_eq!(e, NcError::EngineError(netcdf::error::CODE_NOT_CONTAINER));
    // Trailing garbage is refused as well.
    let mut bytes = file.to_bytes();
    bytes.push(0);
    let e = netcdf::append(&bytes).unwrap_err();
    assert_eq!(e, NcError::EngineError(netcdf::error::CODE_NOT_CONTAINER));
}

#[test]
fn open_mem_reads_a_buffer() {
    let mut file = netcdf::create("memory.nc").unwrap();
    let d = file.engine_mut().add_dimension_in(0, "d", 3, false).unwrap();
    let v = file
        .engine_mut()
        .add_variable_in(0, "v", VarType::Numeric(NumericType::I8), &vec![d])
        .unwrap();
    file.engine_mut().put_values_with(v, &vec![-1, 0, 1], None, None, None).unwrap();
    let bytes = file.to_bytes();
    let back = netcdf::open_mem(Some("memory.nc"), bytes.as_slice()).unwrap();
    let var = back.engine().find_variable(0, "v").unwrap();
    let got = back.engine().values_with(var, None, None, None, NumericType::I8).unwrap();
    assert_eq!(got, vec![-1, 0, 1]);
}

#[test]
fn groups_and_strings_survive_the_image() {
    let mut file = netcdf::create_with("nested.nc", netcdf::Options::hierarchical()).unwrap();
    let g = file.engine_mut().add_group_in(0, "inner").unwrap();
    let d = file.engine_mut().add_dimension_in(g, "d", 2, false).unwrap();
    let s = file.engine_mut().add_variable_in(g, "labels", VarType::Text, &vec![d]).unwrap();
    file.engine_mut().put_string_value(s, "first", Some(&vec![0])).unwrap();
    file.engine_mut().put_string_value(s, "second", Some(&vec![1])).unwrap();
    let n = file
        .engine_mut()
        .add_variable_in(g, "numbers", VarType::Numeric(NumericType::U64), &vec![d])
        .unwrap();
    file.engine_mut()
        .put_values_with(n, &vec![18446744073709551615, 0], None, None, None)
        .unwrap();

    let bytes = file.to_bytes();
    let back = netcdf::open(&bytes).unwrap();
    let g2 = back.engine().find_group(0, "inner").unwrap();
    assert_eq!(g2, g);
    let s2 = back.engine().find_variable(g2, "labels").unwrap();
    assert_eq!(back.engine().string_value(s2, Some(&vec![1])).unwrap(), b"second".to_vec());
    let n2 = back.engine().find_variable(g2, "numbers").unwrap();
    let got = back
        .engine()
        .values_with(n2, None, None, None, NumericType::U64)
        .unwrap();
    assert_eq!(got, vec![18446744073709551615, 0]);
}

#[test]
fn read_only_handle_converts() {
    let mut file = netcdf::create("convertible.nc").unwrap();
    file.engine_mut().add_dimension_in(0, "d", 5, false).unwrap();
    let read = file.into_read_only();
    assert_eq!(read.engine().dimension_len(0).unwrap(), 5);
}

#[test]
fn open_and_append_with_options() {
    let file = netcdf::create_with("opts.nc", netcdf::Options::default()).unwrap();
    let bytes = file.to_bytes();
    let back = netcdf::open_with(&bytes, netcdf::Options::hierarchical()).unwrap();
    assert_eq!(back.to_bytes(), bytes);
    let back = netcdf::append_with(&bytes, netcdf::Options::default()).unwrap();
    assert_eq!(back.to_bytes(), bytes);
}
