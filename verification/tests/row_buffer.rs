use oxitortoise::reflection::{F64Bits, Reflect};
use oxitortoise::row_buffer::{RowBuffer, RowSchema};

fn f(x: f64) -> F64Bits {
    F64Bits(x.to_bits())
}

#[test]
fn test_basic_insert_retrieve() {
    // Schema with a single u32 field
    let schema = RowSchema::new(&[u32::CONCRETE_TY], true);
    let mut buffer = RowBuffer::new(schema);
    buffer.ensure_capacity(1);
    {
        let mut row = buffer.row_mut(0);
        row.insert::<u32>(0, 42);
    }
    let row = buffer.row(0);
    assert_eq!(row.get::<u32>(0), Some(&42));
}

#[test]
fn test_heterogeneous_fields() {
    let schema = RowSchema::new(&[u32::CONCRETE_TY, String::CONCRETE_TY, F64Bits::CONCRETE_TY], true);
    let mut buffer = RowBuffer::new(schema);
    buffer.ensure_capacity(1);

    {
        let mut row = buffer.row_mut(0);
        row.insert::<u32>(0, 42);
        row.insert::<String>(1, "hello".to_string());
        row.insert::<F64Bits>(2, f(3.14));
    }

    let row = buffer.row(0);
    assert_eq!(row.get::<u32>(0), Some(&42));
    assert_eq!(row.get::<String>(1), Some(&"hello".to_string()));
    assert_eq!(row.get::<F64Bits>(2), Some(&f(3.14)));
}

#[test]
fn test_sparse_fields() {
    // create a schema with 4 fields but only insert 2 of them
    let schema = RowSchema::new(
        &[u32::CONCRETE_TY, String::CONCRETE_TY, F64Bits::CONCRETE_TY, bool::CONCRETE_TY],
        true,
    );
    let mut buffer = RowBuffer::new(schema);
    buffer.ensure_capacity(1);

    {
        let mut row = buffer.row_mut(0);
        // only insert fields 0 and 2, leave 1 and 3 empty
        row.insert::<u32>(0, 100);
        row.insert::<F64Bits>(2, f(2.718));
    }

    let row = buffer.row(0);

    // check that inserted fields are present
    assert_eq!(row.get::<u32>(0), Some(&100));
    assert_eq!(row.get::<F64Bits>(2), Some(&f(2.718)));

    // check that non-inserted fields are not present
    assert_eq!(row.get::<String>(1), None);
    assert_eq!(row.get::<bool>(3), None);

    // check that has_field works correctly
    assert!(row.has_field(0));
    assert!(!row.has_field(1));
    assert!(row.has_field(2));
    assert!(!row.has_field(3));
}

#[test]
fn test_insert_and_take() {
    let schema = RowSchema::new(&[u32::CONCRETE_TY, String::CONCRETE_TY, F64Bits::CONCRETE_TY], true);
    let mut buffer = RowBuffer::new(schema);
    buffer.ensure_capacity(1);

    {
        let mut row = buffer.row_mut(0);

        // insert fields
        row.insert::<u32>(0, 42);
        row.insert::<String>(1, "hello".to_string());
        row.insert::<F64Bits>(2, f(3.14));

        // verify they are present
        assert!(row.has_field(0));
        assert!(row.has_field(1));
        assert!(row.has_field(2));

        // take the fields
        let value1 = row.take::<u32>(0);
        let value2 = row.take::<String>(1);
        let value3 = row.take::<F64Bits>(2);

        // verify the taken values are correct
        assert_eq!(value1, Some(42));
        assert_eq!(value2, Some("hello".to_string()));
        assert_eq!(value3, Some(f(3.14)));

        // verify fields are now absent
        assert!(!row.has_field(0));
        assert!(!row.has_field(1));
        assert!(!row.has_field(2));

        // verify get returns None for taken fields
        assert_eq!(row.get::<u32>(0), None);
        assert_eq!(row.get::<String>(1), None);
        assert_eq!(row.get::<F64Bits>(2), None);
    }
}

#[test]
#[should_panic(expected = "type mismatch")]
fn test_type_mismatch_present_field() {
    let schema = RowSchema::new(&[u32::CONCRETE_TY], true);
    let mut buffer = RowBuffer::new(schema);
    buffer.ensure_capacity(1);

    {
        let mut row = buffer.row_mut(0);
        row.insert::<u32>(0, 42);
    }

    let row = buffer.row(0);
    // Try to access a u32 field as a String - should panic
    let _: Option<&String> = row.get::<String>(0);
}

#[test]
#[should_panic(expected = "type mismatch")]
fn test_type_mismatch_absent_field() {
    let schema = RowSchema::new(&[u32::CONCRETE_TY], true);
    let mut buffer = RowBuffer::new(schema);
    buffer.ensure_capacity(1);

    let row = buffer.row(0);
    // Try to access a u32 field as a String when field is not present - should still panic
    let _: Option<&String> = row.get::<String>(0);
}

#[test]
fn test_capacity_expansion_preserves_data() {
    let schema = RowSchema::new(&[u32::CONCRETE_TY, String::CONCRETE_TY, F64Bits::CONCRETE_TY], true);
    let mut buffer = RowBuffer::new(schema);

    // insert data into the first few rows
    buffer.ensure_capacity(3);
    {
        let mut row0 = buffer.row_mut(0);
        row0.insert::<u32>(0, 100);
        row0.insert::<String>(1, "first".to_string());
        row0.insert::<F64Bits>(2, f(1.0));
    }
    {
        let mut row1 = buffer.row_mut(1);
        row1.insert::<u32>(0, 200);
        row1.insert::<F64Bits>(2, f(2.0));
        // leave field 1 empty
    }
    {
        let mut row2 = buffer.row_mut(2);
        row2.insert::<String>(1, "third".to_string());
        // leave fields 0 and 2 empty
    }

    // expand capacity beyond initial 100 rows
    buffer.ensure_capacity(150);

    // verify that all data is still present and correct
    let row0 = buffer.row(0);
    assert_eq!(row0.get::<u32>(0), Some(&100));
    assert_eq!(row0.get::<String>(1), Some(&"first".to_string()));
    assert_eq!(row0.get::<F64Bits>(2), Some(&f(1.0)));

    let row1 = buffer.row(1);
    assert_eq!(row1.get::<u32>(0), Some(&200));
    assert_eq!(row1.get::<String>(1), None);
    assert_eq!(row1.get::<F64Bits>(2), Some(&f(2.0)));

    let row2 = buffer.row(2);
    assert_eq!(row2.get::<u32>(0), None);
    assert_eq!(row2.get::<String>(1), Some(&"third".to_string()));
    assert_eq!(row2.get::<F64Bits>(2), None);

    // verify that we can still insert into new rows after expansion
    {
        let mut row100 = buffer.row_mut(100);
        row100.insert::<u32>(0, 1000);
        row100.insert::<String>(1, "hundredth".to_string());
    }

    let row100 = buffer.row(100);
    assert_eq!(row100.get::<u32>(0), Some(&1000));
    assert_eq!(row100.get::<String>(1), Some(&"hundredth".to_string()));
    assert_eq!(row100.get::<F64Bits>(2), None);
}

#[test]
fn test_massive_row_count() {
    let schema = RowSchema::new(
        &[
            bool::CONCRETE_TY,
            bool::CONCRETE_TY,
            u32::CONCRETE_TY,
            F64Bits::CONCRETE_TY,
            String::CONCRETE_TY,
        ],
        true,
    );
    let mut buffer = RowBuffer::new(schema);

    // create 200 rows with predictable values
    let num_rows = 200;
    buffer.ensure_capacity(num_rows);

    // populate all rows with predictable values
    for row_idx in 0..num_rows {
        let mut row = buffer.row_mut(row_idx);

        row.insert::<bool>(0, (row_idx & 1) != 0);
        row.insert::<bool>(1, (row_idx & 2) != 0);
        row.insert::<u32>(2, row_idx as u32);
        row.insert::<F64Bits>(3, f(row_idx as f64));
        row.insert::<String>(4, row_idx.to_string());
    }

    // verify all rows have correct data
    for row_idx in 0..num_rows {
        let row = buffer.row(row_idx);

        assert_eq!(row.get::<bool>(0), Some(&((row_idx & 1) != 0)));
        assert_eq!(row.get::<bool>(1), Some(&((row_idx & 2) != 0)));
        assert_eq!(row.get::<u32>(2), Some(&(row_idx as u32)));
        assert_eq!(row.get::<F64Bits>(3), Some(&f(row_idx as f64)));
        assert_eq!(row.get::<String>(4), Some(&row_idx.to_string()));

        // verify all fields are present
        assert!(row.has_field(0));
        assert!(row.has_field(1));
        assert!(row.has_field(2));
        assert!(row.has_field(3));
        assert!(row.has_field(4));
    }
}

#[test]
fn test_change_schema() {
    // create initial buffer with (u32, String) schema
    let old_schema = RowSchema::new(&[u32::CONCRETE_TY, String::CONCRETE_TY], true);
    let mut buffer = RowBuffer::new_with_capacity(old_schema, 3);

    // populate with some data
    {
        let mut row0 = buffer.row_mut(0);
        row0.insert::<u32>(0, 42);
        row0.insert::<String>(1, "hello".to_string());
    }
    {
        let mut row1 = buffer.row_mut(1);
        row1.insert::<u32>(0, 100);
        row1.insert::<String>(1, "world".to_string());
    }
    {
        let mut row2 = buffer.row_mut(2);
        row2.insert::<u32>(0, 999);
        row2.insert::<String>(1, "test".to_string());
    }

    // create new schema with (String, u32) - reversed order
    let new_schema = RowSchema::new(&[String::CONCRETE_TY, u32::CONCRETE_TY], true);

    // change schema, taking ownership of values
    buffer.change_schema(new_schema, |mut old_row, mut new_row| {
        // take the old values and insert them in new positions
        new_row.insert::<u32>(1, old_row.take::<u32>(0).unwrap());
        new_row.insert::<String>(0, old_row.take::<String>(1).unwrap());
    });

    // verify the data is now in the new schema
    let row0 = buffer.row(0);
    assert_eq!(row0.get::<String>(0), Some(&"hello".to_string()));
    assert_eq!(row0.get::<u32>(1), Some(&42));

    let row1 = buffer.row(1);
    assert_eq!(row1.get::<String>(0), Some(&"world".to_string()));
    assert_eq!(row1.get::<u32>(1), Some(&100));

    let row2 = buffer.row(2);
    assert_eq!(row2.get::<String>(0), Some(&"test".to_string()));
    assert_eq!(row2.get::<u32>(1), Some(&999));
}

#[test]
fn test_insert_zeroable() {
    let schema = RowSchema::new(&[u32::CONCRETE_TY], true);
    let mut buffer = RowBuffer::new(schema);
    buffer.ensure_capacity(1);

    {
        let mut row = buffer.row_mut(0);

        // insert a nonzero value
        row.insert::<u32>(0, 42);
        assert_eq!(row.get::<u32>(0), Some(&42));

        // take the value out
        let taken = row.take::<u32>(0);
        assert_eq!(taken, Some(42));
        assert_eq!(row.get::<u32>(0), None);

        // insert zeroable
        row.insert_zeroable(0);
        assert_eq!(row.get::<u32>(0), Some(&0));
    }
}

#[test]
fn test_clear() {
    let schema = RowSchema::new(&[u32::CONCRETE_TY, String::CONCRETE_TY, F64Bits::CONCRETE_TY], true);
    let mut buffer = RowBuffer::new_with_capacity(schema, 3);

    // populate multiple rows with data
    {
        let mut row0 = buffer.row_mut(0);
        row0.insert::<u32>(0, 100);
        row0.insert::<String>(1, "first".to_string());
        row0.insert::<F64Bits>(2, f(1.0));
    }
    {
        let mut row1 = buffer.row_mut(1);
        row1.insert::<u32>(0, 200);
        row1.insert::<F64Bits>(2, f(2.0));
        // leave field 1 empty
    }
    {
        let mut row2 = buffer.row_mut(2);
        row2.insert::<String>(1, "third".to_string());
        // leave fields 0 and 2 empty
    }

    // verify data is present before clearing
    let row0 = buffer.row(0);
    assert!(row0.has_field(0));
    assert!(row0.has_field(1));
    assert!(row0.has_field(2));

    let row1 = buffer.row(1);
    assert!(row1.has_field(0));
    assert!(!row1.has_field(1));
    assert!(row1.has_field(2));

    let row2 = buffer.row(2);
    assert!(!row2.has_field(0));
    assert!(row2.has_field(1));
    assert!(!row2.has_field(2));

    // clear the buffer
    buffer.clear();

    // verify all fields are now absent
    let row0 = buffer.row(0);
    assert!(!row0.has_field(0));
    assert!(!row0.has_field(1));
    assert!(!row0.has_field(2));
    assert_eq!(row0.get::<u32>(0), None);
    assert_eq!(row0.get::<String>(1), None);
    assert_eq!(row0.get::<F64Bits>(2), None);

    let row1 = buffer.row(1);
    assert!(!row1.has_field(0));
    assert!(!row1.has_field(1));
    assert!(!row1.has_field(2));

    let row2 = buffer.row(2);
    assert!(!row2.has_field(0));
    assert!(!row2.has_field(1));
    assert!(!row2.has_field(2));
}

#[test]
fn test_basic_always_present() {
    let schema = RowSchema::new(&[u32::CONCRETE_TY], false);
    let mut buffer = RowBuffer::new(schema);
    buffer.ensure_capacity(1);
    {
        let mut row = buffer.row_mut(0);
        let x = row.get_mut::<u32>(0).unwrap();
        *x = 42;
    }
    let row = buffer.row(0);
    assert_eq!(row.get::<u32>(0), Some(&42));
}

#[test]
fn test_heterogeneous_always_present() {
    let schema = RowSchema::new(&[u32::CONCRETE_TY, bool::CONCRETE_TY, F64Bits::CONCRETE_TY], false);
    let mut buffer = RowBuffer::new(schema);
    buffer.ensure_capacity(1);
    {
        let mut row = buffer.row_mut(0);
        *row.get_mut::<u32>(0).unwrap() = 42;
        *row.get_mut::<bool>(1).unwrap() = true;
        *row.get_mut::<F64Bits>(2).unwrap() = f(3.14);
    }
    let row = buffer.row(0);
    assert_eq!(row.get::<u32>(0), Some(&42));
    assert_eq!(row.get::<bool>(1), Some(&true));
    assert_eq!(row.get::<F64Bits>(2), Some(&f(3.14)));
}

#[test]
fn test_massive_always_present() {
    let schema = RowSchema::new(
        &[bool::CONCRETE_TY, bool::CONCRETE_TY, u32::CONCRETE_TY, F64Bits::CONCRETE_TY],
        false,
    );
    let mut buffer = RowBuffer::new(schema);
    let num_rows = 200;
    buffer.ensure_capacity(num_rows);
    for row_idx in 0..num_rows {
        let mut row = buffer.row_mut(row_idx);
        *row.get_mut::<bool>(0).unwrap() = (row_idx & 1) != 0;
        *row.get_mut::<bool>(1).unwrap() = (row_idx & 2) != 0;
        *row.get_mut::<u32>(2).unwrap() = row_idx as u32;
        *row.get_mut::<F64Bits>(3).unwrap() = f(row_idx as f64);
    }
    for row_idx in 0..num_rows {
        let row = buffer.row(row_idx);
        assert_eq!(row.get::<bool>(0), Some(&((row_idx & 1) != 0)));
        assert_eq!(row.get::<bool>(1), Some(&((row_idx & 2) != 0)));
        assert_eq!(row.get::<u32>(2), Some(&(row_idx as u32)));
        assert_eq!(row.get::<F64Bits>(3), Some(&f(row_idx as f64)));
    }
}

#[test]
fn test_insert_zeroable_always_present() {
    let schema = RowSchema::new(&[u32::CONCRETE_TY], false);
    let mut buffer = RowBuffer::new(schema);
    buffer.ensure_capacity(1);
    {
        let mut row = buffer.row_mut(0);
        *row.get_mut::<u32>(0).unwrap() = 42;
        *row.get_mut::<u32>(0).unwrap() = 0;
    }
    let row = buffer.row(0);
    assert_eq!(row.get::<u32>(0), Some(&0));
}

#[test]
#[should_panic(expected = "cannot initialize an always-present row buffer when field at index 0 is not zeroable")]
fn test_panic_nonzeroable_always_present() {
    // String is not zeroable
    let schema = RowSchema::new(&[String::CONCRETE_TY], false);
    let _ = RowBuffer::new(schema);
}

#[test]
#[should_panic(expected = "cannot take a field if the occupancy bitfield is omitted")]
fn test_panic_take_always_present() {
    let schema = RowSchema::new(&[u32::CONCRETE_TY], false);
    let mut buffer = RowBuffer::new(schema);
    buffer.ensure_capacity(1);
    let mut row = buffer.row_mut(0);
    let _ = row.take::<u32>(0);
}

#[test]
fn test_take_array() {
    // create a schema with a single u32 field, always present
    let schema = RowSchema::new(&[u32::CONCRETE_TY], false);
    let mut buffer = RowBuffer::new_with_capacity(schema, 5);

    // populate the buffer with some values
    for i in 0..5 {
        let mut row = buffer.row_mut(i);
        *row.get_mut::<u32>(0).unwrap() = i as u32;
    }

    // verify the data is there before taking
    for i in 0..5 {
        let row = buffer.row(i);
        assert_eq!(row.get::<u32>(0), Some(&(i as u32)));
    }

    // take the array
    let array = buffer.take_array::<u32>();

    // verify the array has the correct data
    assert_eq!(array.len(), 5);
    for i in 0..5 {
        assert_eq!(*array.index(i), i as u32);
    }

    // verify the buffer is now zeroed out
    for i in 0..5 {
        let row = buffer.row(i);
        assert_eq!(row.get::<u32>(0), Some(&0));
    }
}

#[test]
#[should_panic(expected = "cannot reinterpret the row buffer as an array of type u32")]
fn test_take_array_wrong_type() {
    // create a schema with a single f64 field, always present
    let schema = RowSchema::new(&[F64Bits::CONCRETE_TY], false);
    let mut buffer = RowBuffer::new_with_capacity(schema, 3);

    // try to take as u32 - should panic
    let _ = buffer.take_array::<u32>();
}

#[test]
#[should_panic(expected = "cannot reinterpret the row buffer as an array of type u32")]
fn test_take_array_multiple_fields() {
    // create a schema with multiple fields, always present
    let schema = RowSchema::new(&[u32::CONCRETE_TY, F64Bits::CONCRETE_TY], false);
    let mut buffer = RowBuffer::new_with_capacity(schema, 3);

    // try to take as u32 - should panic because there are multiple fields
    let _ = buffer.take_array::<u32>();
}

#[test]
#[should_panic(expected = "cannot reinterpret the row buffer as an array of type u32")]
fn test_take_array_with_occupancy_bitfield() {
    // create a schema with occupancy bitfield (sparse fields)
    let schema = RowSchema::new(&[u32::CONCRETE_TY], true);
    let mut buffer = RowBuffer::new_with_capacity(schema, 3);

    // try to take as u32 - should panic because there's an occupancy bitfield
    let _ = buffer.take_array::<u32>();
}

#[test]
fn small_buffers_hold_at_least_one_row() {
    let one = RowBuffer::new_with_capacity(RowSchema::new(&[u32::CONCRETE_TY], true), 1);
    assert_eq!(one.num_rows(), 1);
    assert!(!one.row(0).has_field(0));
    let none = RowBuffer::new_with_capacity(RowSchema::new(&[u32::CONCRETE_TY], true), 0);
    assert_eq!(none.num_rows(), 1);
}

#[test]
fn change_schema_of_a_single_row() {
    let mut buffer = RowBuffer::new_with_capacity(RowSchema::new(&[u32::CONCRETE_TY], true), 1);
    buffer.row_mut(0).insert::<u32>(0, 7);
    buffer.change_schema(RowSchema::new(&[u32::CONCRETE_TY, bool::CONCRETE_TY], true), |mut old, mut new| {
        let v = old.take::<u32>(0).unwrap();
        new.insert::<u32>(0, v + 1);
    });
    assert_eq!(buffer.num_rows(), 1);
    assert_eq!(buffer.row(0).get::<u32>(0), Some(&8));
    assert!(!buffer.row(0).has_field(1));
}
