// Queries against raw fixed-point chains: ten million raw units per 1.0.

use query_curve::get_encoded_curve_query_function;
use query_curve::query_curve;
use query_curve::query_encoded_curve;

#[test]
fn test_query_curve_values() {
    let curve: Vec<i64> = vec![
        10000000, 10000000, 0, 0, // scale_x, scale_y, offset_x, offset_y
        0, 0, // Start point x, y
        5000000, 0, // Start handle x, y
        5000000, 10000000, // End handle x, y
        10000000, 10000000, // End point x, y
    ];

    assert_eq!(query_curve(&curve, 0), Some(0));

    let y_at_0_3 = query_curve(&curve, 3000000).unwrap();
    assert!(((y_at_0_3 as f64) / 1e7 - 0.16).abs() < 0.01);

    assert_eq!(query_curve(&curve, 5000000), Some(5000000));

    let y_at_0_6 = query_curve(&curve, 6000000).unwrap();
    assert!(((y_at_0_6 as f64) / 1e7 - 0.69).abs() < 0.01);

    let y_at_0_8 = query_curve(&curve, 8000000).unwrap();
    assert!(((y_at_0_8 as f64) / 1e7 - 0.94).abs() < 0.01);

    assert_eq!(query_curve(&curve, 10000000), Some(10000000));
}

#[test]
fn test_query_encoded_curve_values() {
    let encoded_scaled_chain = "fxSK-fxSK-0-0-0-0-KyjA-0-KyjA-fxSK-fxSK-fxSK";
    assert_eq!(query_encoded_curve(encoded_scaled_chain, 0), Some(0));

    let y_at_0_3 = query_encoded_curve(encoded_scaled_chain, 3000000).unwrap();
    assert!(((y_at_0_3 as f64) / 1e7 - 0.16).abs() < 0.01);

    assert_eq!(query_encoded_curve(encoded_scaled_chain, 5000000), Some(5000000));

    let y_at_0_6 = query_encoded_curve(encoded_scaled_chain, 6000000).unwrap();
    assert!(((y_at_0_6 as f64) / 1e7 - 0.69).abs() < 0.01);

    let y_at_0_8 = query_encoded_curve(encoded_scaled_chain, 8000000).unwrap();
    assert!(((y_at_0_8 as f64) / 1e7 - 0.94).abs() < 0.01);

    assert_eq!(query_encoded_curve(encoded_scaled_chain, 10000000), Some(10000000));
}

#[test]
fn test_get_encoded_curve_query_function() {
    let encoded_scaled_chain = "fxSK-fxSK-0-0-0-0-KyjA-0-KyjA-fxSK-fxSK-fxSK";
    let query_my_curve = get_encoded_curve_query_function(encoded_scaled_chain).unwrap();

    assert_eq!(query_my_curve.query(0), Some(0));

    let y_at_0_3 = query_my_curve.query(3000000).unwrap();
    assert!(((y_at_0_3 as f64) / 1e7 - 0.16).abs() < 0.01);

    assert_eq!(query_my_curve.query(5000000), Some(5000000));

    let y_at_0_6 = query_my_curve.query(6000000).unwrap();
    assert!(((y_at_0_6 as f64) / 1e7 - 0.69).abs() < 0.01);

    let y_at_0_8 = query_my_curve.query(8000000).unwrap();
    assert!(((y_at_0_8 as f64) / 1e7 - 0.94).abs() < 0.01);

    assert_eq!(query_my_curve.query(10000000), Some(10000000));

    // Testing the second encoded chain
    let encoded_scaled_chain2 = "fxSK-fxSK-0-0-0-0-264W-0-AQ1l-0-CW6H-0-KYiG-0-OgWT-fxSK-VkR1-fxSK-XqVX-fxSK-drNo-fxSK-fxSK-fxSK";
    let query_my_curve2 = get_encoded_curve_query_function(encoded_scaled_chain2).unwrap();

    assert_eq!(query_my_curve2.query(0), Some(0));

    let y_at_0_3 = query_my_curve2.query(3000000).unwrap();
    assert!(((y_at_0_3 as f64) / 1e7 - 0.0).abs() < 0.01);

    let y_at_0_5 = query_my_curve2.query(5000000).unwrap();
    assert!(((y_at_0_5 as f64) / 1e7 - 0.37).abs() < 0.01);

    let y_at_0_7 = query_my_curve2.query(7000000).unwrap();
    assert!(((y_at_0_7 as f64) / 1e7 - 0.96).abs() < 0.01);

    let y_at_0_8 = query_my_curve2.query(8000000).unwrap();
    assert!(((y_at_0_8 as f64) / 1e7 - 1.0).abs() < 0.000001);
}

#[test]
fn test_query_negative_values() {
    let chain1 = "-fxSK--fxSK-0-0-0-0-fxSK-fxSK-0-0-fxSK-fxSK";
    let query_my_curve1 = get_encoded_curve_query_function(chain1).unwrap();

    assert_eq!(query_my_curve1.query(0), Some(0));
    assert_eq!(query_my_curve1.query(-10000000), Some(-10000000));
    assert_eq!(query_my_curve1.query(-5000000), Some(-5000000));
}

#[test]
fn test_query_with_offset_and_scale() {
    let chain1 = "1Luue-2hppI--21sMy-3NnHc-0-0-fxSK-fxSK-0-0-fxSK-fxSK";
    let query_my_curve1 = get_encoded_curve_query_function(chain1).unwrap();

    assert_eq!(query_my_curve1.query(-60000000), Some(200000000));
    assert_eq!(query_my_curve1.query(-40000000), Some(240000000));
    assert_eq!(query_my_curve1.query(-50000000), Some(220000000));
}

#[test]
fn test_query_out_of_domain_returns_absent() {
    let curve: Vec<i64> = vec![
        10000000, 10000000, 0, 0, 0, 0, 5000000, 0, 5000000, 10000000, 10000000, 10000000,
    ];
    assert_eq!(query_curve(&curve, -1000000), None);
    assert_eq!(query_curve(&curve, 10000001), None);
    assert_eq!(query_curve(&curve, 90000000), None);

    let encoded = "fxSK-fxSK-0-0-0-0-KyjA-0-KyjA-fxSK-fxSK-fxSK";
    assert_eq!(query_encoded_curve(encoded, -1), None);
    assert_eq!(query_encoded_curve(encoded, 10000001), None);
}

#[test]
fn test_query_chain_too_short_returns_absent() {
    let curve: Vec<i64> = vec![10000000, 10000000, 0, 0, 0, 0, 5000000];
    assert_eq!(query_curve(&curve, 0), None);
    assert_eq!(query_encoded_curve("", 0), None);
    assert_eq!(query_encoded_curve("fxSK-fxSK-0-0", 0), None);
}

#[test]
fn test_query_multi_segment_chain() {
    // four straight-line segments from (0,0) to (4,4), boundary points shared
    let curve: Vec<i64> = vec![
        10000000, 10000000, 0, 0, // header
        0, 0, 5000000, 0, 5000000, 10000000, // first segment
        10000000, 10000000, 15000000, 10000000, 15000000, 20000000, // second
        20000000, 20000000, 25000000, 20000000, 25000000, 30000000, // third
        30000000, 30000000, 35000000, 30000000, 35000000, 40000000, // fourth
        40000000, 40000000,
    ];
    // segment boundaries answer exactly
    assert_eq!(query_curve(&curve, 10000000), Some(10000000));
    assert_eq!(query_curve(&curve, 30000000), Some(30000000));
    assert_eq!(query_curve(&curve, 40000000), Some(40000000));
    // interior points land in the right segment
    let y_at_2_5 = query_curve(&curve, 25000000).unwrap();
    assert!(((y_at_2_5 as f64) / 1e7 - 2.5).abs() < 0.01);
    let y_at_1_3 = query_curve(&curve, 13000000).unwrap();
    assert!(((y_at_1_3 as f64) / 1e7 - 1.16).abs() < 0.01);
}
