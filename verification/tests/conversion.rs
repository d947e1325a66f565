use shovel_stb::conversion::{
    conversion_for_extension, csv_target_is_stl, keeps_binary_extension, Conversion,
};

#[test]
fn extensions_select_conversions() {
    assert_eq!(conversion_for_extension(Some("stb")), Conversion::StbToCsv);
    assert_eq!(conversion_for_extension(Some("stm")), Conversion::StbToCsv);
    assert_eq!(conversion_for_extension(Some("stl")), Conversion::StlToCsv);
    assert_eq!(conversion_for_extension(Some("csv")), Conversion::CsvToBinary);
    assert_eq!(conversion_for_extension(Some("txt")), Conversion::UnknownExtension);
    assert_eq!(conversion_for_extension(Some("STB")), Conversion::UnknownExtension);
    assert_eq!(conversion_for_extension(None), Conversion::NoExtension);
}

#[test]
fn csv_targets() {
    assert!(csv_target_is_stl(Some("stl")));
    assert!(!csv_target_is_stl(Some("stb")));
    assert!(!csv_target_is_stl(None));
    assert!(keeps_binary_extension(Some("stb")));
    assert!(keeps_binary_extension(Some("stm")));
    assert!(!keeps_binary_extension(Some("stl")));
    assert!(!keeps_binary_extension(None));
}
