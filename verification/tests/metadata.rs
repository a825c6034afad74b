//! Creation, lookup and shape queries of the container's metadata.

use netcdf::error::NcError;
use netcdf::types::NumericType;

#[test]
fn create_starts_empty() {
    let file = netcdf::create("crabs.nc").unwrap();
    assert_eq!(file.engine().find_dimension(0, "x"), None);
    assert_eq!(file.engine().find_variable(0, "data"), None);
}

#[test]
fn dimension_lengths() {
    let mut file = netcdf::create("dimension_lengths.nc").unwrap();
    let unlim = file
        .engine_mut()
        .add_dimension_in(0, "unlim", 0, true)
        .expect("Could not create dimension");
    let lim = file
        .engine_mut()
        .add_dimension_in(0, "lim", 10, false)
        .expect("Could not create dimension");
    assert_eq!(file.engine().dimension_len(unlim).unwrap(), 0);
    assert_eq!(file.engine().dimension_len(lim).unwrap(), 10);
    assert!(file.engine().dimension_unlimited(unlim).unwrap());
    assert!(!file.engine().dimension_unlimited(lim).unwrap());

    let found = file.engine().find_dimension(0, "lim").expect("Could not find dim");
    assert_eq!(found, lim);
    let found = file.engine().find_dimension(0, "unlim").expect("Could not find dim");
    assert_eq!(found, unlim);
}

#[test]
fn add_conflicting_dimensions() {
    let mut file = netcdf::create("conflict_dim.nc").unwrap();
    file.engine_mut().add_dimension_in(0, "x", 10, false).unwrap();
    let e = file.engine_mut().add_dimension_in(0, "x", 11, false).unwrap_err();
    assert_eq!(e, NcError::AlreadyExists);
    assert_eq!(file.engine().dimension_len(0).unwrap(), 10);
}

#[test]
fn add_conflicting_variables() {
    let mut file = netcdf::create("conflict_var.nc").unwrap();
    let x = file.engine_mut().add_dimension_in(0, "x", 10, false).unwrap();
    let y = file.engine_mut().add_dimension_in(0, "y", 20, false).unwrap();
    file.engine_mut()
        .add_variable_in(0, "x", netcdf::VarType::Numeric(NumericType::I32), &vec![x])
        .unwrap();
    let e = file
        .engine_mut()
        .add_variable_in(0, "x", netcdf::VarType::Numeric(NumericType::I8), &vec![y])
        .unwrap_err();
    assert_eq!(e, NcError::AlreadyExists);
}

#[test]
fn lookup_walks_to_ancestors() {
    let mut file = netcdf::create("scoped.nc").unwrap();
    let x = file.engine_mut().add_dimension_in(0, "x", 6, false).unwrap();
    let g = file.engine_mut().add_group_in(0, "inner").unwrap();
    // The child group has no dimension of its own named x: the root's is found.
    assert_eq!(file.engine().find_dimension(g, "x"), Some(x));
    // A name the ancestors lack is not found.
    assert_eq!(file.engine().find_dimension(g, "y"), None);
    // A sibling-group name is found from the parent by explicit lookup.
    assert_eq!(file.engine().find_group(0, "inner"), Some(g));
    assert_eq!(file.engine().find_group(0, "other"), None);
}

#[test]
fn group_shadows_ancestor_dimension() {
    let mut file = netcdf::create("shadow.nc").unwrap();
    let outer = file.engine_mut().add_dimension_in(0, "x", 6, false).unwrap();
    let g = file.engine_mut().add_group_in(0, "inner").unwrap();
    let inner = file.engine_mut().add_dimension_in(g, "x", 3, false).unwrap();
    assert_ne!(outer, inner);
    assert_eq!(file.engine().find_dimension(g, "x"), Some(inner));
    assert_eq!(file.engine().find_dimension(0, "x"), Some(outer));
}

#[test]
fn name_too_long_is_refused() {
    let mut file = netcdf::create("long_names.nc").unwrap();
    let long: String = std::iter::repeat('a').take(257).collect();
    let e = file.engine_mut().add_dimension_in(0, &long, 1, false).unwrap_err();
    assert_eq!(e, NcError::EngineError(netcdf::error::CODE_NAME_TOO_LONG));
    let just_fits: String = std::iter::repeat('a').take(256).collect();
    file.engine_mut().add_dimension_in(0, &just_fits, 1, false).unwrap();
}

#[test]
fn stale_handles_are_not_found() {
    let mut file = netcdf::create("stale.nc").unwrap();
    assert_eq!(file.engine().dimension_len(0).unwrap_err(), NcError::NotFound);
    assert_eq!(file.engine().shape_of(0).unwrap_err(), NcError::NotFound);
    assert_eq!(file.engine().length_of(0).unwrap_err(), NcError::NotFound);
    let e = file
        .engine_mut()
        .add_variable_in(3, "v", netcdf::VarType::Text, &vec![])
        .unwrap_err();
    assert_eq!(e, NcError::NotFound);
}

#[test]
fn length_of_variable() {
    let mut file = netcdf::create("variable_length.nc").unwrap();
    let x = file.engine_mut().add_dimension_in(0, "x", 4, false).unwrap();
    let y = file.engine_mut().add_dimension_in(0, "y", 6, false).unwrap();
    let z = file.engine_mut().add_dimension_in(0, "z", 0, true).unwrap();

    let vx = file
        .engine_mut()
        .add_variable_in(0, "x", netcdf::VarType::Numeric(NumericType::I32), &vec![x, y])
        .unwrap();
    assert_eq!(file.engine().length_of(vx).unwrap(), 4 * 6);

    let vz = file
        .engine_mut()
        .add_variable_in(0, "z", netcdf::VarType::Numeric(NumericType::I64), &vec![x, z])
        .unwrap();
    file.engine_mut().put_value(vz, 1, Some(&vec![2, 8])).unwrap();
    assert_eq!(file.engine().length_of(vz).unwrap(), 4 * 9);
}

#[test]
fn shape_is_product_of_axes() {
    // Total length is the product of the shape, before and after a
    // non-growing write.
    let mut file = netcdf::create("products.nc").unwrap();
    let x = file.engine_mut().add_dimension_in(0, "x", 3, false).unwrap();
    let y = file.engine_mut().add_dimension_in(0, "y", 5, false).unwrap();
    let v = file
        .engine_mut()
        .add_variable_in(0, "v", netcdf::VarType::Numeric(NumericType::U16), &vec![x, y, x])
        .unwrap();
    let shape = file.engine().shape_of(v).unwrap();
    assert_eq!(shape, vec![3, 5, 3]);
    assert_eq!(
        file.engine().length_of(v).unwrap(),
        shape.iter().product::<usize>()
    );
    file.engine_mut().put_value(v, 7, Some(&vec![1, 1, 1])).unwrap();
    assert_eq!(file.engine().shape_of(v).unwrap(), vec![3, 5, 3]);
    assert_eq!(file.engine().length_of(v).unwrap(), 45);
}

#[test]
fn scalar_variable_has_length_one() {
    let mut file = netcdf::create("scalar.nc").unwrap();
    let v = file
        .engine_mut()
        .add_variable_in(0, "s", netcdf::VarType::Numeric(NumericType::U8), &vec![])
        .unwrap();
    assert_eq!(file.engine().shape_of(v).unwrap(), Vec::<usize>::new());
    assert_eq!(file.engine().length_of(v).unwrap(), 1);
}

#[test]
fn chunking_and_compression() {
    let mut file = netcdf::create("chunked.nc").unwrap();
    let x = file.engine_mut().add_dimension_in(0, "x", 10, false).unwrap();
    let y = file.engine_mut().add_dimension_in(0, "y", 20, false).unwrap();
    let v = file
        .engine_mut()
        .add_variable_in(0, "v", netcdf::VarType::Numeric(NumericType::I32), &vec![x, y])
        .unwrap();
    // A chunk vector of the wrong rank is a length mismatch.
    let e = file.engine_mut().set_chunking(v, &vec![5]).unwrap_err();
    assert_eq!(e, NcError::InvalidStride);
    file.engine_mut().set_chunking(v, &vec![5, 10]).unwrap();
    // Compression levels run 0 to 9.
    let e = file.engine_mut().set_compression(v, 10).unwrap_err();
    assert_eq!(e, NcError::EngineError(netcdf::error::CODE_INVALID_ARG));
    file.engine_mut().set_compression(v, 9).unwrap();
}

#[test]
fn listing_members_of_a_group() {
    let mut file = netcdf::create("listing.nc").unwrap();
    let g = file.engine_mut().add_group_in(0, "inner").unwrap();
    let d0 = file.engine_mut().add_dimension_in(0, "a", 1, false).unwrap();
    let d1 = file.engine_mut().add_dimension_in(g, "b", 2, false).unwrap();
    let d2 = file.engine_mut().add_dimension_in(0, "c", 3, false).unwrap();
    let v0 = file
        .engine_mut()
        .add_variable_in(g, "v", netcdf::VarType::Numeric(NumericType::I8), &vec![d1])
        .unwrap();
    assert_eq!(file.engine().dimensions_in(0), vec![d0, d2]);
    assert_eq!(file.engine().dimensions_in(g), vec![d1]);
    assert_eq!(file.engine().variables_in(g), vec![v0]);
    assert_eq!(file.engine().variables_in(0), Vec::<usize>::new());
    assert_eq!(file.engine().groups_in(0), vec![g]);
    assert_eq!(file.engine().groups_in(g), Vec::<usize>::new());
}

#[test]
fn unlimited_flags_per_axis() {
    let mut file = netcdf::create("axes.nc").unwrap();
    let t = file.engine_mut().add_dimension_in(0, "t", 0, true).unwrap();
    let x = file.engine_mut().add_dimension_in(0, "x", 3, false).unwrap();
    let v = file
        .engine_mut()
        .add_variable_in(0, "v", netcdf::VarType::Numeric(NumericType::I32), &vec![x, t])
        .unwrap();
    assert_eq!(file.engine().unlimited_of(v).unwrap(), vec![false, true]);
}
