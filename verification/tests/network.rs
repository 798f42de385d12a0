use mlp_core::codec::DecodeError;
use mlp_core::matrix::Matrix;
use mlp_core::network::MultilayerSingleton;
use mlp_core::network::params_needed_checked;
use mlp_core::source::ConstSource;
use mlp_core::source::SeqSource;

fn bits(x: f32) -> u32 {
    x.to_bits()
}

fn ramp(n: usize) -> Vec<u32> {
    (0..n).map(|i| bits(i as f32 * 0.5 - 1.0)).collect()
}

#[test]
fn test_layer_forward_affine() {
    let mut g = ConstSource::new(bits(1.0));
    let layer = mlp_core::layer::Layer::new(2, 1, &mut g);
    let input = Matrix::new(2, 1, vec![bits(1.0), bits(2.0)]);
    let out = layer.forward(&input);
    assert_eq!(out.rows, 1);
    assert_eq!(out.cols, 1);
    // weights x input + biases = 1*1 + 1*2 + 1 = 4
    assert_eq!(f32::from_bits(out.data[0]), 4.0);
}

#[test]
fn test_network_chaining_shapes() {
    let mut g = ConstSource::new(bits(1.0));
    let net = MultilayerSingleton::new(vec![2, 3, 1], &mut g);
    assert_eq!(net.layer_count(), 2);
    assert_eq!(net.layer_at(0).weights().rows, 3);
    assert_eq!(net.layer_at(0).weights().cols, 2);
    assert_eq!(net.layer_at(0).biases().rows, 3);
    assert_eq!(net.layer_at(0).biases().cols, 1);
    assert_eq!(net.layer_at(1).weights().rows, 1);
    assert_eq!(net.layer_at(1).weights().cols, 3);
    let out = net.forward(vec![bits(0.5), bits(-0.5)]);
    assert_eq!(out.len(), 1);
}

#[test]
fn test_network_forward_exact() {
    // All-ones [2, 1] network: output = x + y + 1.
    let mut g = ConstSource::new(bits(1.0));
    let net = MultilayerSingleton::new(vec![2, 1], &mut g);
    let out = net.forward(vec![bits(3.0), bits(4.0)]);
    assert_eq!(out.len(), 1);
    assert_eq!(f32::from_bits(out[0]), 8.0);
}

#[test]
fn test_params_needed() {
    assert_eq!(params_needed_checked(&vec![2, 3, 1]), Some(13));
    assert_eq!(params_needed_checked(&vec![2, 1]), Some(3));
    assert_eq!(params_needed_checked(&vec![usize::MAX, usize::MAX]), None);
}

#[test]
fn test_determinism() {
    // Two sources producing the identical value stream build identical
    // networks.
    let vals = ramp(13);
    let mut g1 = SeqSource::new(vals.clone());
    let mut g2 = SeqSource::new(vals);
    let n1 = MultilayerSingleton::new(vec![2, 3, 1], &mut g1);
    let n2 = MultilayerSingleton::new(vec![2, 3, 1], &mut g2);
    assert_eq!(n1, n2);
}

#[test]
fn test_round_trip() {
    let mut g = SeqSource::new(ramp(13));
    let net = MultilayerSingleton::new(vec![2, 3, 1], &mut g);
    let bytes = net.to_bytes();
    let back = MultilayerSingleton::from_bytes(&bytes).unwrap();
    assert_eq!(back, net);
    // Bit-exact second generation too.
    assert_eq!(back.to_bytes(), bytes);
}

#[test]
fn test_decode_empty_buffer() {
    assert_eq!(
        MultilayerSingleton::from_bytes(&Vec::new()),
        Err(DecodeError::Truncated)
    );
}

#[test]
fn test_decode_truncated() {
    let mut g = ConstSource::new(bits(1.0));
    let net = MultilayerSingleton::new(vec![2, 3, 1], &mut g);
    let mut bytes = net.to_bytes();
    bytes.pop();
    assert!(MultilayerSingleton::from_bytes(&bytes).is_err());
    // Cut in the middle of the widths.
    let short: Vec<u8> = net.to_bytes().into_iter().take(20).collect();
    assert!(MultilayerSingleton::from_bytes(&short).is_err());
}

#[test]
fn test_decode_mutated() {
    let mut g = ConstSource::new(bits(1.0));
    let net = MultilayerSingleton::new(vec![2, 3, 1], &mut g);
    let mut bytes = net.to_bytes();
    // Corrupt the layer count: the length accounting no longer matches.
    bytes[0] ^= 0x01;
    assert!(MultilayerSingleton::from_bytes(&bytes).is_err());
    let mut bytes2 = net.to_bytes();
    // Corrupt a width word.
    bytes2[16] ^= 0xff;
    assert!(MultilayerSingleton::from_bytes(&bytes2).is_err());
    // Padding after a valid encoding is rejected.
    let mut bytes3 = net.to_bytes();
    bytes3.push(0);
    assert!(MultilayerSingleton::from_bytes(&bytes3).is_err());
}

#[test]
fn test_decode_empty_network() {
    // The count word zero with nothing after it is the empty network.
    let bytes = vec![0u8; 8];
    let net = MultilayerSingleton::from_bytes(&bytes).unwrap();
    assert_eq!(net.layer_count(), 0);
    assert_eq!(net.to_bytes(), bytes);
}
