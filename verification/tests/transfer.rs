//! Reads and writes of hyperslab regions: defaults, inference, growth,
//! strides, conversion and the fill policy.

use netcdf::error::NcError;
use netcdf::types::NumericType;
use netcdf::{MutableFile, VarType};

/// A 6 by 12 variable holding `row * 12 + col` in every cell.
fn simple_xy() -> (MutableFile, usize) {
    let mut file = netcdf::create("simple_xy.nc").unwrap();
    let x = file.engine_mut().add_dimension_in(0, "x", 6, false).unwrap();
    let y = file.engine_mut().add_dimension_in(0, "y", 12, false).unwrap();
    let data = file
        .engine_mut()
        .add_variable_in(0, "data", VarType::Numeric(NumericType::I32), &vec![x, y])
        .unwrap();
    let values: Vec<i128> = (0..72).collect();
    file.engine_mut().put_values_with(data, &values, None, None, None).unwrap();
    (file, data)
}

#[test]
fn test_index_fetch() {
    let (file, data) = simple_xy();
    let var = file.engine().find_variable(0, "data").expect("Could not find variable");
    assert_eq!(var, data);
    // Gets first value
    let first_val = file.engine().value(var, None, NumericType::I32).unwrap();
    let other_val = file.engine().value(var, Some(&vec![5, 3]), NumericType::I32).unwrap();
    assert_eq!(first_val, 0);
    assert_eq!(other_val, 63);
}

#[test]
fn last_dim_varies_fastest() {
    let (file, var) = simple_xy();
    let data = file.engine().values_with(var, None, None, None, NumericType::I32).unwrap();
    let shape = file.engine().shape_of(var).unwrap();
    let nx = shape[0];
    let ny = shape[1];
    assert_eq!(nx, 6);
    assert_eq!(ny, 12);
    assert_eq!(nx * ny, data.len());
    for x in 0..nx {
        for y in 0..ny {
            let ind = x * ny + y;
            assert_eq!(data[ind], ind as i128);
        }
    }
}

#[test]
fn round_trip_all_representations() {
    // Writing a full-rank region and reading the same region back returns
    // the same values under every representation that can hold them.
    let reps = [
        NumericType::I8,
        NumericType::U8,
        NumericType::I16,
        NumericType::U16,
        NumericType::I32,
        NumericType::U32,
        NumericType::I64,
        NumericType::U64,
    ];
    for (i, rep) in reps.iter().enumerate() {
        let mut file = netcdf::create("round_trip.nc").unwrap();
        let x = file.engine_mut().add_dimension_in(0, "x", 2, false).unwrap();
        let y = file.engine_mut().add_dimension_in(0, "y", 3, false).unwrap();
        let name = format!("v{}", i);
        let v = file
            .engine_mut()
            .add_variable_in(0, &name, VarType::Numeric(*rep), &vec![x, y])
            .unwrap();
        let values: Vec<i128> = vec![0, 1, 2, 3, 4, 5];
        file.engine_mut()
            .put_values_with(v, &values, Some(&vec![0, 0]), Some(&vec![2, 3]), None)
            .unwrap();
        let back = file
            .engine()
            .values_with(v, Some(&vec![0, 0]), Some(&vec![2, 3]), None, *rep)
            .unwrap();
        assert_eq!(back, values);
    }
}

#[test]
fn put_then_read_partial_region() {
    let mut file = netcdf::create("partial.nc").unwrap();
    let x = file.engine_mut().add_dimension_in(0, "x", 4, false).unwrap();
    let y = file.engine_mut().add_dimension_in(0, "y", 4, false).unwrap();
    let v = file
        .engine_mut()
        .add_variable_in(0, "v", VarType::Numeric(NumericType::I16), &vec![x, y])
        .unwrap();
    file.engine_mut()
        .put_values_with(v, &vec![9, 8, 7, 6], Some(&vec![1, 1]), Some(&vec![2, 2]), None)
        .unwrap();
    let back = file
        .engine()
        .values_with(v, Some(&vec![1, 1]), Some(&vec![2, 2]), None, NumericType::I16)
        .unwrap();
    assert_eq!(back, vec![9, 8, 7, 6]);
}

#[test]
fn inference_with_one_unlimited_axis() {
    // A put with no explicit count on one unlimited axis and a buffer of
    // length L grows that axis to L over the product of the fixed axes.
    let mut file = netcdf::create("infer.nc").unwrap();
    let t = file.engine_mut().add_dimension_in(0, "t", 0, true).unwrap();
    let x = file.engine_mut().add_dimension_in(0, "x", 4, false).unwrap();
    let v = file
        .engine_mut()
        .add_variable_in(0, "v", VarType::Numeric(NumericType::I32), &vec![t, x])
        .unwrap();
    let values: Vec<i128> = (0..12).collect();
    file.engine_mut().put_values_with(v, &values, None, None, None).unwrap();
    assert_eq!(file.engine().dimension_len(t).unwrap(), 3);
    assert_eq!(file.engine().shape_of(v).unwrap(), vec![3, 4]);
    // A non-exact division is rejected.
    let odd: Vec<i128> = (0..13).collect();
    let e = file.engine_mut().put_values_with(v, &odd, None, None, None).unwrap_err();
    assert_eq!(e, NcError::DimensionMismatch);
}

#[test]
fn two_unlimited_axes_are_ambiguous() {
    // Two growable axes and no explicit count always yields Ambiguous,
    // whatever the buffer length; an explicit count resolves it and grows
    // both axes.
    let mut file = netcdf::create("ambiguous.nc").unwrap();
    let a = file.engine_mut().add_dimension_in(0, "a", 0, true).unwrap();
    let b = file.engine_mut().add_dimension_in(0, "b", 0, true).unwrap();
    let v = file
        .engine_mut()
        .add_variable_in(0, "v", VarType::Numeric(NumericType::I32), &vec![a, b])
        .unwrap();
    file.engine_mut().set_fill_value(v, NumericType::I32, 0).unwrap();
    let values: Vec<i128> = vec![1, 2, 3, 4];
    let e = file.engine_mut().put_values_with(v, &values, None, None, None).unwrap_err();
    assert_eq!(e, NcError::Ambiguous);
    for len in [0usize, 1, 2, 4, 5, 8] {
        let buf: Vec<i128> = vec![0; len];
        let e = file.engine_mut().put_values_with(v, &buf, None, None, None).unwrap_err();
        assert_eq!(e, NcError::Ambiguous);
    }
    file.engine_mut()
        .put_values_with(v, &values, None, Some(&vec![1, 4]), None)
        .unwrap();
    assert_eq!(file.engine().dimension_len(a).unwrap(), 1);
    assert_eq!(file.engine().dimension_len(b).unwrap(), 4);
    let back = file
        .engine()
        .values_with(v, None, Some(&vec![1, 4]), None, NumericType::I32)
        .unwrap();
    assert_eq!(back, values);
}

#[test]
fn fill_value_answers_unwritten_cells() {
    // Fill value 1; writing 6 at index 1 only: index 0 reads the fill
    // value, index 1 the written value.
    let mut file = netcdf::create("fill.nc").unwrap();
    let d = file.engine_mut().add_dimension_in(0, "d", 2, false).unwrap();
    let v0 = file
        .engine_mut()
        .add_variable_in(0, "v0", VarType::Numeric(NumericType::I32), &vec![d])
        .unwrap();
    file.engine_mut().set_fill_value(v0, NumericType::I32, 1).unwrap();
    file.engine_mut().put_value(v0, 6, Some(&vec![1])).unwrap();
    assert_eq!(file.engine().value(v0, Some(&vec![0]), NumericType::I32).unwrap(), 1);
    assert_eq!(file.engine().value(v0, Some(&vec![1]), NumericType::I32).unwrap(), 6);
    assert_eq!(
        file.engine().fill_value(v0, NumericType::I32).unwrap(),
        Some(1)
    );
}

#[test]
fn default_fill_values() {
    let mut file = netcdf::create("default_fill.nc").unwrap();
    let d = file.engine_mut().add_dimension_in(0, "d", 1, false).unwrap();
    let cases = [
        (NumericType::I8, -127i128),
        (NumericType::U8, 255),
        (NumericType::I16, -32767),
        (NumericType::U16, 65535),
        (NumericType::I32, -2147483647),
        (NumericType::U32, 4294967295),
        (NumericType::I64, -9223372036854775806),
        (NumericType::U64, 18446744073709551614),
    ];
    for (i, (rep, expect)) in cases.iter().enumerate() {
        let name = format!("v{}", i);
        let v = file
            .engine_mut()
            .add_variable_in(0, &name, VarType::Numeric(*rep), &vec![d])
            .unwrap();
        assert_eq!(file.engine().value(v, Some(&vec![0]), *rep).unwrap(), *expect);
        // No explicit fill value was configured, so the attribute is absent.
        assert_eq!(file.engine().fill_value(v, *rep).unwrap(), None);
    }
}

#[test]
fn fill_idempotence_and_restore() {
    // Setting the same fill value twice leaves identical state; no-fill
    // and back restores the same behaviour for never-written cells.
    let mut file = netcdf::create("fill_again.nc").unwrap();
    let d = file.engine_mut().add_dimension_in(0, "d", 0, true).unwrap();
    let v = file
        .engine_mut()
        .add_variable_in(0, "v", VarType::Numeric(NumericType::I32), &vec![d])
        .unwrap();
    file.engine_mut().set_fill_value(v, NumericType::I32, 5).unwrap();
    file.engine_mut().set_fill_value(v, NumericType::I32, 5).unwrap();
    assert_eq!(file.engine().fill_value(v, NumericType::I32).unwrap(), Some(5));
    // Grow the axis to 3 by writing its last cell; the middle cells were
    // never written.
    file.engine_mut().put_value(v, 9, Some(&vec![2])).unwrap();
    assert_eq!(file.engine().value(v, Some(&vec![1]), NumericType::I32).unwrap(), 5);
    // No-fill mode hides the attribute but the engine retains the value.
    file.engine_mut().set_no_fill(v).unwrap();
    assert_eq!(file.engine().fill_value(v, NumericType::I32).unwrap(), None);
    // Back to fill mode: the retained value is observable again.
    file.engine_mut().set_fill_on(v).unwrap();
    assert_eq!(file.engine().fill_value(v, NumericType::I32).unwrap(), Some(5));
    // Setting the same value explicitly changes nothing further.
    file.engine_mut().set_fill_value(v, NumericType::I32, 5).unwrap();
    assert_eq!(file.engine().fill_value(v, NumericType::I32).unwrap(), Some(5));
    file.engine_mut().put_value(v, 9, Some(&vec![4])).unwrap();
    assert_eq!(file.engine().value(v, Some(&vec![3]), NumericType::I32).unwrap(), 5);
}

#[test]
fn fill_value_type_must_match() {
    let mut file = netcdf::create("fill_types.nc").unwrap();
    let d = file.engine_mut().add_dimension_in(0, "d", 1, false).unwrap();
    let v = file
        .engine_mut()
        .add_variable_in(0, "v", VarType::Numeric(NumericType::U8), &vec![d])
        .unwrap();
    let e = file.engine_mut().set_fill_value(v, NumericType::I32, 1).unwrap_err();
    assert_eq!(e, NcError::TypeMismatch);
    let e = file.engine().fill_value(v, NumericType::I32).unwrap_err();
    assert_eq!(e, NcError::TypeMismatch);
    let e = file.engine_mut().set_fill_value(v, NumericType::U8, 300).unwrap_err();
    assert_eq!(e, NcError::Conversion);
}

#[test]
fn strided_read_golden() {
    // A 3 by 5 by 9 variable filled with 0..135, read with stride [2,1,3]
    // over the full extent: exactly 30 elements, the documented
    // interleaved subsequence.
    let mut file = netcdf::create("strided.nc").unwrap();
    let x = file.engine_mut().add_dimension_in(0, "x", 3, false).unwrap();
    let y = file.engine_mut().add_dimension_in(0, "y", 5, false).unwrap();
    let z = file.engine_mut().add_dimension_in(0, "z", 9, false).unwrap();
    let v = file
        .engine_mut()
        .add_variable_in(0, "v", VarType::Numeric(NumericType::I32), &vec![x, y, z])
        .unwrap();
    let values: Vec<i128> = (0..135).collect();
    file.engine_mut().put_values_with(v, &values, None, None, None).unwrap();
    let got = file
        .engine()
        .values_with(v, None, None, Some(&vec![2, 1, 3]), NumericType::I32)
        .unwrap();
    assert_eq!(got.len(), 30);
    let mut expected: Vec<i128> = Vec::new();
    for i in 0..2 {
        for j in 0..5 {
            for k in 0..3 {
                expected.push(((i * 2) * 45 + j * 9 + (k * 3)) as i128);
            }
        }
    }
    assert_eq!(got, expected);
}

#[test]
fn strided_write_lands_on_every_other_cell() {
    let mut file = netcdf::create("strided_put.nc").unwrap();
    let x = file.engine_mut().add_dimension_in(0, "x", 6, false).unwrap();
    let v = file
        .engine_mut()
        .add_variable_in(0, "v", VarType::Numeric(NumericType::I32), &vec![x])
        .unwrap();
    file.engine_mut().set_fill_value(v, NumericType::I32, -1).unwrap();
    file.engine_mut()
        .put_values_with(v, &vec![10, 20, 30], Some(&vec![0]), Some(&vec![3]), Some(&vec![2]))
        .unwrap();
    let all = file.engine().values_with(v, None, None, None, NumericType::I32).unwrap();
    assert_eq!(all, vec![10, -1, 20, -1, 30, -1]);
}

#[test]
fn zero_stride_is_invalid() {
    let (file, v) = simple_xy();
    let e = file
        .engine()
        .values_with(v, None, None, Some(&vec![1, 0]), NumericType::I32)
        .unwrap_err();
    assert_eq!(e, NcError::InvalidStride);
}

#[test]
fn conversion_errors_are_reported() {
    let mut file = netcdf::create("convert.nc").unwrap();
    let d = file.engine_mut().add_dimension_in(0, "d", 2, false).unwrap();
    let v = file
        .engine_mut()
        .add_variable_in(0, "v", VarType::Numeric(NumericType::I32), &vec![d])
        .unwrap();
    // A value beyond the storage type is refused, and nothing is written.
    let e = file
        .engine_mut()
        .put_values_with(v, &vec![1, 3_000_000_000], None, None, None)
        .unwrap_err();
    assert_eq!(e, NcError::Conversion);
    // A stored value beyond the requested representation is refused.
    file.engine_mut().put_values_with(v, &vec![1, 300], None, None, None).unwrap();
    let e = file.engine().values_with(v, None, None, None, NumericType::U8).unwrap_err();
    assert_eq!(e, NcError::Conversion);
    let ok = file.engine().values_with(v, None, None, None, NumericType::U16).unwrap();
    assert_eq!(ok, vec![1, 300]);
}

#[test]
fn unlimited_dimension_single_putting() {
    let mut file = netcdf::create("unlim_single.nc").unwrap();
    let x = file.engine_mut().add_dimension_in(0, "x", 0, true).unwrap();
    let y = file.engine_mut().add_dimension_in(0, "y", 0, true).unwrap();
    let var = file
        .engine_mut()
        .add_variable_in(0, "var", VarType::Numeric(NumericType::U8), &vec![x, y])
        .unwrap();
    file.engine_mut().set_fill_value(var, NumericType::U8, 0).unwrap();

    file.engine_mut().put_value(var, 1, None).unwrap();
    assert_eq!(file.engine().dimension_len(x).unwrap(), 1);
    assert_eq!(file.engine().dimension_len(y).unwrap(), 1);
    file.engine_mut().put_value(var, 2, Some(&vec![0, 1])).unwrap();
    assert_eq!(file.engine().dimension_len(x).unwrap(), 1);
    assert_eq!(file.engine().dimension_len(y).unwrap(), 2);
    file.engine_mut().put_value(var, 3, Some(&vec![2, 0])).unwrap();
    assert_eq!(file.engine().dimension_len(x).unwrap(), 3);
    assert_eq!(file.engine().dimension_len(y).unwrap(), 2);

    let v = file
        .engine()
        .values_with(var, None, Some(&vec![3, 2]), None, NumericType::U8)
        .unwrap();
    assert_eq!(v, vec![1, 2, 0, 0, 3, 0]);
}

#[test]
fn growth_is_visible_through_sharing_variables() {
    // Growing an unlimited axis via one variable's write shows in the
    // shape of every other variable sharing it.
    let mut file = netcdf::create("shared_growth.nc").unwrap();
    let t = file.engine_mut().add_dimension_in(0, "t", 0, true).unwrap();
    let a = file
        .engine_mut()
        .add_variable_in(0, "a", VarType::Numeric(NumericType::I32), &vec![t])
        .unwrap();
    let b = file
        .engine_mut()
        .add_variable_in(0, "b", VarType::Numeric(NumericType::I32), &vec![t])
        .unwrap();
    assert_eq!(file.engine().shape_of(b).unwrap(), vec![0]);
    file.engine_mut().put_value(a, 42, Some(&vec![6])).unwrap();
    assert_eq!(file.engine().shape_of(a).unwrap(), vec![7]);
    assert_eq!(file.engine().shape_of(b).unwrap(), vec![7]);
    assert_eq!(file.engine().length_of(b).unwrap(), 7);
}

#[test]
fn single_length_variable() {
    let mut file = netcdf::create("single_length_variable.nc").unwrap();
    let v = file
        .engine_mut()
        .add_variable_in(0, "x", VarType::Numeric(NumericType::U8), &vec![])
        .unwrap();

    file.engine_mut().put_value(v, 3, None).unwrap();
    assert_eq!(file.engine().value(v, Some(&vec![]), NumericType::U8).unwrap(), 3);

    file.engine_mut().put_values_with(v, &vec![], None, None, None).unwrap_err();
    assert_eq!(file.engine().value(v, None, NumericType::U8).unwrap(), 3);

    file.engine_mut().put_values_with(v, &vec![2, 3], None, None, None).unwrap_err();

    file.engine_mut().put_values_with(v, &vec![6], None, None, None).unwrap();
    assert_eq!(file.engine().value(v, None, NumericType::U8).unwrap(), 6);

    file.engine_mut()
        .put_values_with(v, &vec![8], Some(&vec![]), Some(&vec![]), None)
        .unwrap();
    assert_eq!(file.engine().value(v, None, NumericType::U8).unwrap(), 8);

    file.engine_mut()
        .put_values_with(v, &vec![10], Some(&vec![1]), None, None)
        .unwrap_err();
    assert_eq!(file.engine().value(v, None, NumericType::U8).unwrap(), 8);

    let bytes = file.to_bytes();
    let reopened = netcdf::open(&bytes).unwrap();
    let var = reopened.engine().find_variable(0, "x").unwrap();
    assert_eq!(reopened.engine().value(var, None, NumericType::U8).unwrap(), 8);
}

#[test]
fn string_variables() {
    let mut file = netcdf::create("string_variables.nc").unwrap();
    let x = file.engine_mut().add_dimension_in(0, "x", 0, true).unwrap();
    file.engine_mut().add_dimension_in(0, "y", 2, false).unwrap();
    let var = file.engine_mut().add_variable_in(0, "str", VarType::Text, &vec![x]).unwrap();

    file.engine_mut().put_string_value(var, "Hello world!", None).unwrap();
    file.engine_mut()
        .put_string_value(
            var,
            "Trying a very long string just to see how that goes",
            Some(&vec![2]),
        )
        .unwrap();
    file.engine_mut()
        .put_string_value(var, "Foreign letters: \u{df}\u{e6}\u{f8}\u{e5}, #41&i1/99", Some(&vec![3]))
        .unwrap();
    let y = file
        .engine_mut()
        .add_variable_in(0, "y", VarType::Numeric(NumericType::I32), &vec![])
        .unwrap();
    file.engine_mut().put_value(y, 42, Some(&vec![])).unwrap();

    let bytes = file.to_bytes();
    let file = netcdf::open(&bytes).unwrap();
    let var = file.engine().find_variable(0, "str").unwrap();
    assert_eq!(
        file.engine().string_value(var, Some(&vec![0])).unwrap(),
        "Hello world!".as_bytes().to_vec()
    );
    assert_eq!(file.engine().string_value(var, Some(&vec![1])).unwrap(), Vec::<u8>::new());
    assert_eq!(
        file.engine().string_value(var, Some(&vec![2])).unwrap(),
        "Trying a very long string just to see how that goes".as_bytes().to_vec()
    );
    assert_eq!(
        file.engine().string_value(var, Some(&vec![3])).unwrap(),
        "Foreign letters: \u{df}\u{e6}\u{f8}\u{e5}, #41&i1/99".as_bytes().to_vec()
    );
    let y = file.engine().find_variable(0, "y").unwrap();
    file.engine().string_value(y, None).unwrap_err();
}

#[test]
fn unlimited_dimension_multi_putting() {
    let mut file = netcdf::create("unlim_multi.nc").unwrap();
    let x = file.engine_mut().add_dimension_in(0, "x", 0, true).unwrap();
    file.engine_mut().add_dimension_in(0, "y", 0, true).unwrap();
    let z = file.engine_mut().add_dimension_in(0, "z", 2, false).unwrap();
    let x2 = file.engine_mut().add_dimension_in(0, "x2", 0, true).unwrap();
    let x3 = file.engine_mut().add_dimension_in(0, "x3", 0, true).unwrap();
    let x4 = file.engine_mut().add_dimension_in(0, "x4", 0, true).unwrap();

    let var = file
        .engine_mut()
        .add_variable_in(0, "one_unlim", VarType::Numeric(NumericType::U8), &vec![x, z])
        .unwrap();
    file.engine_mut().put_values_with(var, &vec![0, 1, 2, 3], None, None, None).unwrap();
    let got = file.engine().values_with(var, None, None, None, NumericType::U8).unwrap();
    assert_eq!(got, vec![0, 1, 2, 3]);
    file.engine_mut()
        .put_values_with(var, &vec![0, 1, 2, 3, 4, 5, 6, 7], None, None, None)
        .unwrap();
    let got = file.engine().values_with(var, None, None, None, NumericType::U8).unwrap();
    assert_eq!(got, vec![0, 1, 2, 3, 4, 5, 6, 7]);

    let var = file
        .engine_mut()
        .add_variable_in(0, "unlim_first", VarType::Numeric(NumericType::U8), &vec![z, x2])
        .unwrap();
    file.engine_mut().put_values_with(var, &vec![0, 1, 2, 3], None, None, None).unwrap();
    let got = file.engine().values_with(var, None, None, None, NumericType::U8).unwrap();
    assert_eq!(got, vec![0, 1, 2, 3]);
    file.engine_mut()
        .put_values_with(var, &vec![0, 1, 2, 3, 4, 5, 6, 7], None, None, None)
        .unwrap();
    let got = file.engine().values_with(var, None, None, None, NumericType::U8).unwrap();
    assert_eq!(got, vec![0, 1, 2, 3, 4, 5, 6, 7]);

    let var = file
        .engine_mut()
        .add_variable_in(0, "two_unlim", VarType::Numeric(NumericType::U8), &vec![x3, x4])
        .unwrap();
    file.engine_mut().set_fill_value(var, NumericType::U8, 0).unwrap();
    let e = file
        .engine_mut()
        .put_values_with(var, &vec![0, 1, 2, 3], None, None, None)
        .unwrap_err();
    assert_eq!(e, NcError::Ambiguous);
    file.engine_mut()
        .put_values_with(var, &vec![0, 1, 2, 3], None, Some(&vec![1, 4]), None)
        .unwrap();
    let v = file
        .engine()
        .values_with(var, None, Some(&vec![1, 4]), None, NumericType::U8)
        .unwrap();
    assert_eq!(v, vec![0, 1, 2, 3]);
    file.engine_mut()
        .put_values_with(var, &vec![4, 5, 6], None, Some(&vec![3, 1]), None)
        .unwrap();
    let v = file
        .engine()
        .values_with(var, None, Some(&vec![3, 4]), None, NumericType::U8)
        .unwrap();
    assert_eq!(v, vec![4, 1, 2, 3, 5, 0, 0, 0, 6, 0, 0, 0]);
}

#[test]
fn put_then_def() {
    let mut file = netcdf::create("put_then_def.nc").unwrap();
    let var = file
        .engine_mut()
        .add_variable_in(0, "x", VarType::Numeric(NumericType::I8), &vec![])
        .unwrap();
    file.engine_mut().put_value(var, 3, None).unwrap();
    let var2 = file
        .engine_mut()
        .add_variable_in(0, "y", VarType::Numeric(NumericType::I8), &vec![])
        .unwrap();
    file.engine_mut().put_value(var2, 4, None).unwrap();
    assert_eq!(file.engine().value(var, None, NumericType::I8).unwrap(), 3);
    assert_eq!(file.engine().value(var2, None, NumericType::I8).unwrap(), 4);
}

#[test]
fn buffer_beyond_count_is_ignored() {
    // With an explicit count only the first count-product values are
    // consumed.
    let mut file = netcdf::create("extra.nc").unwrap();
    let d = file.engine_mut().add_dimension_in(0, "d", 4, false).unwrap();
    let v = file
        .engine_mut()
        .add_variable_in(0, "v", VarType::Numeric(NumericType::I32), &vec![d])
        .unwrap();
    file.engine_mut().set_fill_value(v, NumericType::I32, 0).unwrap();
    file.engine_mut()
        .put_values_with(v, &vec![5, 6, 7], None, Some(&vec![2]), None)
        .unwrap();
    let all = file.engine().values_with(v, None, None, None, NumericType::I32).unwrap();
    assert_eq!(all, vec![5, 6, 0, 0]);
}

#[test]
fn inference_with_offset_start() {
    // With an explicit start, the fixed axis contributes its remainder
    // (length minus start) to the inferred count, and the unlimited axis
    // grows to start plus its inferred count.
    let mut file = netcdf::create("infer_offset.nc").unwrap();
    let t = file.engine_mut().add_dimension_in(0, "t", 0, true).unwrap();
    let x = file.engine_mut().add_dimension_in(0, "x", 4, false).unwrap();
    let v = file
        .engine_mut()
        .add_variable_in(0, "v", VarType::Numeric(NumericType::I32), &vec![t, x])
        .unwrap();
    file.engine_mut().set_fill_value(v, NumericType::I32, 0).unwrap();
    // Remainder of x from start 2 is 2; a 6-value buffer infers 3 rows,
    // growing t to 1 + 3 = 4.
    file.engine_mut()
        .put_values_with(v, &vec![1, 2, 3, 4, 5, 6], Some(&vec![1, 2]), None, None)
        .unwrap();
    assert_eq!(file.engine().dimension_len(t).unwrap(), 4);
    let all = file.engine().values_with(v, None, None, None, NumericType::I32).unwrap();
    assert_eq!(
        all,
        vec![0, 0, 0, 0, 0, 0, 1, 2, 0, 0, 3, 4, 0, 0, 5, 6]
    );
    // A non-exact division against the remainder is rejected.
    let e = file
        .engine_mut()
        .put_values_with(v, &vec![1, 2, 3], Some(&vec![0, 2]), None, None)
        .unwrap_err();
    assert_eq!(e, NcError::DimensionMismatch);
}
