use nnet::NetError;
use nnet::fixed::{HALF, SCALE};
use nnet::layer::Layer;
use nnet::matrix::Matrix;
use nnet::network::Network;
use nnet::vector::Vector;

fn build_net() -> Network {
    let l0 = Layer::new(
        Matrix::from_flat(2, 3, vec![SCALE, -HALF, 7, 0, 123456, -SCALE]).unwrap(),
        Vector::from_vec(vec![HALF, -42]),
    )
    .unwrap();
    let l1 = Layer::new(
        Matrix::from_flat(1, 2, vec![3 * SCALE, 5]).unwrap(),
        Vector::from_vec(vec![-HALF]),
    )
    .unwrap();
    Network::new(vec![l0, l1])
}

fn assert_same_parameters(a: &Network, b: &Network) {
    assert_eq!(a.layers.len(), b.layers.len());
    for (la, lb) in a.layers.iter().zip(b.layers.iter()) {
        assert_eq!(la.weights.row_count(), lb.weights.row_count());
        assert_eq!(la.weights.col_count(), lb.weights.col_count());
        for r in 0..la.weights.row_count() {
            for c in 0..la.weights.col_count() {
                assert_eq!(
                    la.weights.get_element(r, c).unwrap(),
                    lb.weights.get_element(r, c).unwrap()
                );
            }
        }
        assert_eq!(la.biases.len(), lb.biases.len());
        for i in 0..la.biases.len() {
            assert_eq!(
                la.biases.get_element(i).unwrap(),
                lb.biases.get_element(i).unwrap()
            );
        }
    }
}

#[test]
fn round_trip_preserves_network() {
    let net = build_net();
    let text = net.to_string();
    let parsed = Network::from_str(&text).unwrap();
    assert_same_parameters(&net, &parsed);
}

#[test]
fn round_trip_single_layer() {
    let net = Network::new(vec![
        Layer::new(
            Matrix::from_flat(1, 1, vec![-9_223_372_036_854_775_807]).unwrap(),
            Vector::from_vec(vec![9_223_372_036_854_775_807]),
        )
        .unwrap(),
    ]);
    let parsed = Network::from_str(&net.to_string()).unwrap();
    assert_same_parameters(&net, &parsed);
}

#[test]
fn round_trip_empty_network() {
    let net = Network::new(vec![]);
    let text = net.to_string();
    let parsed = Network::from_str(&text).unwrap();
    assert_eq!(parsed.layers.len(), 0);
}

#[test]
fn text_shape_is_fixed_width_records() {
    let net = build_net();
    let text = net.to_string();
    // One record for the count, then per layer: two dimension records,
    // the weights, the biases.
    let records = 1 + (2 + 6 + 2) + (2 + 2 + 1);
    assert_eq!(text.len(), records * 21);
    for line in text.lines() {
        assert_eq!(line.len(), 20);
        let sign = line.chars().next().unwrap();
        assert!(sign == '+' || sign == '-');
        assert!(line.chars().skip(1).all(|c| c.is_ascii_digit()));
    }
}

#[test]
fn parse_rejects_garbage() {
    for bad in [
        "",
        "hello",
        "+000000000000000000a\n",
        "+0000000000000000002",
        "-0000000000000000000\n",
        "+9999999999999999999\n",
    ] {
        assert_eq!(Network::from_str(bad).unwrap_err(), NetError::ParseFailure);
    }
}

#[test]
fn parse_rejects_trailing_text() {
    let net = Network::new(vec![]);
    let mut text = net.to_string();
    text.push_str("+0000000000000000000\n");
    assert_eq!(Network::from_str(&text).unwrap_err(), NetError::ParseFailure);
}

#[test]
fn parse_rejects_truncated_text() {
    let net = build_net();
    let text = net.to_string();
    let cut = &text[0..text.len() - 1];
    assert_eq!(Network::from_str(cut).unwrap_err(), NetError::ParseFailure);
}

#[test]
fn parsed_network_reserializes_identically() {
    let net = build_net();
    let text = net.to_string();
    let parsed = Network::from_str(&text).unwrap();
    assert_eq!(parsed.to_string(), text);
}
