//! Numbers as bits, sizes, names, and what is computed from them.

use luminal_python::bits::{
    abs, clamp_to_billion, eq, from_i64, from_usize, is_infinite, is_nan, is_nonzero, lt, narrow,
    neg, to_i32, to_i64, to_usize,
};
use luminal_python::fold::{cycle, select, spread_elements, transpose_weight_data};
use luminal_python::names::{ends_with, join, read_decimal, size_to_decimal, to_decimal, NameMap};
use luminal_python::nodes::{find_kind, Kind};
use luminal_python::ops::axes::{count_axis, sort_axes};
use luminal_python::proto::{get_shape_for_onnx_value, load_initializer_as_f32, TensorDef, ValueDef};
use luminal_python::shape::{checked_product, compute_broadcast_shape, Dim, Tracker};
use luminal_python::wire::check_groups;

fn known(sizes: &[usize]) -> Vec<Dim> {
    sizes.iter().map(|s| Dim::Known(*s)).collect()
}

#[test]
fn whole_numbers_become_bits() {
    for v in [0i64, 1, -1, 7, 16777216, 16777217, -16777219, i64::MAX, i64::MIN, 123456789012] {
        assert_eq!(from_i64(v), (v as f32).to_bits());
    }
    for v in [0usize, 1, 3, 50304, 33554435, usize::MAX] {
        assert_eq!(from_usize(v), (v as f32).to_bits());
    }
}

#[test]
fn bits_become_whole_numbers() {
    for f in [
        0.0f32, -0.0, 0.9, -0.9, 1.5, -1.5, 1e10, -1e10, 1e30, -1e30, f32::NAN, f32::INFINITY,
        f32::NEG_INFINITY, 16777217.0, 1e-40,
    ] {
        assert_eq!(to_i64(f.to_bits()), f as i64);
        assert_eq!(to_i32(f.to_bits()), f as i32);
        assert_eq!(to_usize(f.to_bits()), f as usize);
    }
}

#[test]
fn whole_numbers_of_24_bits_survive() {
    for v in [-16777216i64, -1, 0, 1, 255, 16777215, 16777216] {
        assert_eq!(to_i64(from_i64(v)), v);
    }
}

#[test]
fn doubles_are_rounded() {
    for d in [
        0.0f64, -0.0, 0.1, -2.5, 1e300, -1e300, 1e-300, 1e-45, 3.4028235677973366e38, f64::INFINITY,
        1.00000005960464478, 1.0000000596046449, 5.877471754111438e-39,
    ] {
        assert_eq!(narrow(d.to_bits()), (d as f32).to_bits(), "{}", d);
    }
    assert!(is_nan(narrow(f64::NAN.to_bits())));
}

#[test]
fn comparisons_of_bits() {
    let numbers = [0.0f32, -0.0, 1.0, -1.0, f32::NAN, f32::INFINITY, f32::NEG_INFINITY, 1e-40];
    for a in numbers {
        for b in numbers {
            assert_eq!(lt(a.to_bits(), b.to_bits()), a < b);
            assert_eq!(eq(a.to_bits(), b.to_bits()), a == b);
        }
        assert_eq!(is_nonzero(a.to_bits()), a != 0.0);
        assert_eq!(is_infinite(a.to_bits()), a.is_infinite());
        assert_eq!(is_nan(a.to_bits()), a.is_nan());
        assert_eq!(neg(a.to_bits()), (-a).to_bits());
        assert_eq!(abs(a.to_bits()), a.abs().to_bits());
        if !a.is_nan() {
            assert_eq!(clamp_to_billion(a.to_bits()), a.clamp(-1e9, 1e9).to_bits());
        }
    }
}

#[test]
fn groups_that_are_nested_deeply() {
    assert!(check_groups(&vec![]));
    assert!(check_groups(&vec![0x0b, 0x0c]));
    assert!(check_groups(&vec![0x0b; 50]));
    assert!(!check_groups(&vec![0x0b; 5000]));
    let mut bytes = vec![0x0b; 90];
    bytes.extend(vec![0x0c; 90]);
    assert!(check_groups(&bytes));
}

#[test]
fn joint_sizes() {
    let joint = |a: &[usize], b: &[usize]| compute_broadcast_shape(&known(a), &known(b));
    assert_eq!(joint(&[2, 1], &[3]), Some(vec![2, 3]));
    assert_eq!(joint(&[3], &[2, 1]), Some(vec![2, 3]));
    assert_eq!(joint(&[], &[2]), Some(vec![2]));
    assert_eq!(joint(&[0], &[1]), Some(vec![0]));
    assert_eq!(joint(&[2], &[3]), None);
    assert_eq!(compute_broadcast_shape(&vec![Dim::Dynamic], &known(&[1])), None);
}

#[test]
fn products_of_sizes() {
    assert_eq!(checked_product(&vec![]), Some(1));
    assert_eq!(checked_product(&vec![2, 3, 4]), Some(24));
    assert_eq!(checked_product(&vec![usize::MAX, 2]), None);
}

#[test]
fn contiguous_shapes() {
    let shape = Tracker::new(known(&[2, 3]));
    assert!(shape.is_contiguous());
    assert!(!shape.permute(&vec![1, 0]).is_contiguous());
    let wide = shape.expand_dim(1, Dim::Known(1));
    assert!(!wide.is_contiguous());
    assert!(wide.remove_dim(1).is_contiguous());
}

#[test]
fn names_are_joined_and_written() {
    assert_eq!(join("a", "b", "c"), "abc");
    assert_eq!(to_decimal(0), "0");
    assert_eq!(to_decimal(-120), "-120");
    assert_eq!(to_decimal(i64::MIN), i64::MIN.to_string());
    assert_eq!(size_to_decimal(usize::MAX), usize::MAX.to_string());
    assert_eq!(read_decimal(&to_decimal(907)), Some(907));
    assert_eq!(read_decimal("18446744073709551615"), Some(u64::MAX));
    assert_eq!(read_decimal("18446744073709551616"), None);
    assert_eq!(read_decimal(""), None);
    assert_eq!(read_decimal("1 "), None);
    assert!(ends_with("w_kn", "_kn"));
    assert!(!ends_with("kn", "_kn"));
    assert!(!ends_with("w_kn2", "_kn"));
}

#[test]
fn maps_remember_the_order_of_names() {
    let mut map: NameMap<usize> = NameMap::new();
    map.insert("b", 1);
    map.insert("a", 2);
    map.insert("b", 3);
    assert_eq!(map.len(), 2);
    assert_eq!(map.name(0), "b");
    assert_eq!(map.name(1), "a");
    assert_eq!(map.get("b"), Some(&3));
    assert_eq!(map.get("c"), None);
}

#[test]
fn axes_are_counted_from_both_ends() {
    assert_eq!(count_axis(-1, 3, 3), Some(2));
    assert_eq!(count_axis(2, 3, 3), Some(2));
    assert_eq!(count_axis(3, 3, 3), None);
    assert_eq!(count_axis(-4, 3, 3), None);
    assert_eq!(count_axis(i64::MIN, 3, 3), None);
    assert_eq!(sort_axes(&vec![3, 0, 2, 0]), vec![0, 0, 2, 3]);
}

#[test]
fn matrices_are_transposed_twice() {
    let m = vec![1, 2, 3, 4, 5, 6];
    let t = transpose_weight_data(&m, 2, 3);
    assert_eq!(t, vec![1, 4, 2, 5, 3, 6]);
    assert_eq!(transpose_weight_data(&t, 3, 2), m);
}

#[test]
fn lists_are_repeated_and_chosen_from() {
    assert_eq!(cycle(&vec![1, 2], 5), vec![1, 2, 1, 2, 1]);
    assert_eq!(cycle(&vec![], 5), Vec::<u32>::new());
    assert_eq!(spread_elements(&vec![1, 2], &vec![2, 1], &vec![2, 2], 4), vec![1, 1, 2, 2]);
    assert_eq!(spread_elements(&vec![1, 2], &vec![2], &vec![2, 2], 4), vec![1, 2, 1, 2]);
    assert_eq!(spread_elements(&vec![1, 2], &vec![2], &vec![2], 2), vec![1, 2]);
    assert_eq!(select(&vec![1, 0], &vec![5], &vec![6, 7]), vec![5, 7]);
}

#[test]
fn node_types_are_found() {
    assert_eq!(find_kind(&"Gemm".to_string()), Some(Kind::Gemm));
    assert_eq!(find_kind(&"Split".to_string()), Some(Kind::Split));
    assert_eq!(find_kind(&"split".to_string()), None);
    assert_eq!(find_kind(&"Pow".to_string()), None);
}

#[test]
fn sizes_of_values() {
    let value = |shape: Option<Vec<Option<i64>>>| ValueDef { name: "v".to_string(), shape };
    assert_eq!(get_shape_for_onnx_value(&value(Some(vec![Some(2), Some(3)]))), vec![2, 3]);
    assert_eq!(get_shape_for_onnx_value(&value(Some(vec![Some(2), None]))), Vec::<usize>::new());
    assert_eq!(get_shape_for_onnx_value(&value(None)), Vec::<usize>::new());
}

#[test]
fn initializers_without_elements() {
    let mut t = TensorDef {
        name: "t".to_string(),
        dims: vec![2],
        data_type: 6,
        float_data: Vec::new(),
        int32_data: Vec::new(),
        int64_data: Vec::new(),
        double_data: Vec::new(),
        raw_data: Vec::new(),
        external_data: Vec::new(),
        data_location: 0,
    };
    assert_eq!(load_initializer_as_f32(&t), None);
    t.int32_data = vec![4, -5];
    assert_eq!(
        load_initializer_as_f32(&t),
        Some(vec![4.0f32.to_bits(), (-5.0f32).to_bits()])
    );
    t.data_type = 2;
    assert_eq!(load_initializer_as_f32(&t), None);
}
