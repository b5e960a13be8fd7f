use turbo_vec::quant::packed::pack_indices;
use turbo_vec::simd::portable::table_positions;

#[test]
fn positions_index_rows_of_the_table() {
    let packed = pack_indices(&[3, 0, 2, 1], 2);
    assert_eq!(table_positions(&packed, 2, 4), vec![3, 4, 10, 13]);
}

#[test]
fn positions_at_general_width() {
    let packed = pack_indices(&[5, 1, 7], 3);
    assert_eq!(table_positions(&packed, 3, 3), vec![5, 9, 23]);
}
