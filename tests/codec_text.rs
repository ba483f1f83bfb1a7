use neuralnet::codec::PersistenceError;
use neuralnet::matrix::Matrix;
use neuralnet::network::Network;

fn tokens(words: &[&str]) -> Vec<Vec<u8>> {
    words.iter().map(|w| w.as_bytes().to_vec()).collect()
}

fn text_matrix(words: &[&str], rows: usize, columns: usize) -> Matrix<Vec<u8>> {
    Matrix::new(tokens(words), rows, columns).ok().unwrap()
}

fn small_network() -> Network<Vec<u8>> {
    Network {
        layers: vec![2, 3, 1],
        weights: vec![
            text_matrix(&["0.1", "0.2", "0.3", "0.4", "0.5", "0.6"], 3, 2),
            text_matrix(&["-1", "2e-3", "7"], 1, 3),
        ],
        biases: vec![text_matrix(&["1", "2", "3"], 3, 1), text_matrix(&["0.25"], 1, 1)],
        data: vec![],
    }
}

#[test]
fn matrix_text_lists_shape_then_cells() {
    let m = text_matrix(&["1.5", "-2", "3", "4"], 2, 2);
    assert_eq!(String::from_utf8(m.serialise()).unwrap(), "2 2 1.5 -2 3 4");
}

#[test]
fn matrix_text_round_trip() {
    let m = text_matrix(&["0.5", "1", "NaN", "inf", "-0", "12"], 3, 2);
    let back = Matrix::deserialise(&m.serialise()).ok().unwrap();
    assert_eq!((back.rows, back.columns), (3, 2));
    assert_eq!(back.data, m.data);
}

#[test]
fn matrix_text_rejects_malformed() {
    for bad in ["", "2 2 1 2 3", "2 1 a b c", "02 1 a b", "2  1 a b", "2 1 a b ", "x 1 a"] {
        let r = Matrix::deserialise(&bad.as_bytes().to_vec());
        assert!(matches!(r, Err(PersistenceError::Malformed)), "{:?}", bad);
    }
}

#[test]
fn network_text_has_three_lines() {
    let text = String::from_utf8(small_network().serialise()).unwrap();
    assert_eq!(
        text,
        "2, 3, 1\n3 2 0.1 0.2 0.3 0.4 0.5 0.6 | 1 3 -1 2e-3 7\n3 1 1 2 3 | 1 1 0.25"
    );
}

#[test]
fn network_text_round_trip() {
    let n = small_network();
    let back = Network::load(&n.serialise()).ok().unwrap();
    assert_eq!(back.layers, n.layers);
    assert_eq!(back.weights.len(), 2);
    assert_eq!(back.biases.len(), 2);
    for i in 0..2 {
        assert_eq!(back.weights[i].data, n.weights[i].data);
        assert_eq!((back.weights[i].rows, back.weights[i].columns), (n.weights[i].rows, n.weights[i].columns));
        assert_eq!(back.biases[i].data, n.biases[i].data);
        assert_eq!((back.biases[i].rows, back.biases[i].columns), (n.biases[i].rows, n.biases[i].columns));
    }
    assert!(back.data.is_empty());
}

#[test]
fn load_rejects_malformed_text() {
    for bad in [
        "",
        "2, 1",
        "2, 1\n1 2 a b",
        "2, 1\n1 2 a b\n1 1 c\n",
        "2,1\n1 2 a b\n1 1 c",
        "2, 1\n1 2 a b|1 1 c\n1 1 c",
        "2, x\n1 2 a b\n1 1 c",
    ] {
        let r = Network::load(&bad.as_bytes().to_vec());
        assert!(matches!(r, Err(PersistenceError::Malformed)), "{:?}", bad);
    }
}

#[test]
fn load_rejects_shapes_that_do_not_fit_layers() {
    let r = Network::load(&"2, 1\n1 1 a\n1 1 b".as_bytes().to_vec());
    assert!(matches!(r, Err(PersistenceError::Inconsistent)));
    let r = Network::load(&"2\n1 2 a b\n1 1 c".as_bytes().to_vec());
    assert!(matches!(r, Err(PersistenceError::Inconsistent)));
    let ok = Network::load(&"2, 1\n1 2 a b\n1 1 c".as_bytes().to_vec()).ok().unwrap();
    assert_eq!(ok.layers, vec![2, 1]);
}
