use mtoc_parser::check::{make_diff, write_diff, DiffLine, Mismatch};

#[test]
fn make_diff_simple() {
    let src = "one\ntwo\nthree\nfour\nfive\n";
    let dst = "one\ntwo\ntrois\nfour\nfive\n";
    let diff = make_diff(src, dst, 1);

    assert_eq!(
        diff,
        vec![Mismatch {
            line_number_orig: 2,
            lines: vec![
                DiffLine::Context("two".to_owned()),
                DiffLine::Resulting("three".to_owned()),
                DiffLine::Expected("trois".to_owned()),
                DiffLine::Context("four".to_owned()),
            ]
        }]
    );
}

#[test]
fn make_diff_simple2() {
    let src = "one\ntwo\nthree\nfour\nfive\nsix\nseven\n";
    let dst = "one\ntwo\ntrois\nfour\ncinq\nsix\nseven\n";
    let diff = make_diff(src, dst, 1);

    assert_eq!(
        diff,
        vec![
            Mismatch {
                line_number_orig: 2,
                lines: vec![
                    DiffLine::Context("two".to_owned()),
                    DiffLine::Resulting("three".to_owned()),
                    DiffLine::Expected("trois".to_owned()),
                    DiffLine::Context("four".to_owned()),
                ],
            },
            Mismatch {
                line_number_orig: 5,
                lines: vec![
                    DiffLine::Resulting("five".to_owned()),
                    DiffLine::Expected("cinq".to_owned()),
                    DiffLine::Context("six".to_owned()),
                ],
            }
        ]
    );
}

#[test]
fn make_diff_zerocontext() {
    let src = "one\ntwo\nthree\nfour\nfive\n";
    let dst = "one\ntwo\ntrois\nfour\nfive\n";
    let diff = make_diff(src, dst, 0);

    assert_eq!(
        diff,
        vec![Mismatch {
            line_number_orig: 3,
            lines: vec![
                DiffLine::Resulting("three".to_owned()),
                DiffLine::Expected("trois".to_owned())
            ],
        }]
    );
}

#[test]
fn make_diff_trailing_newline() {
    let src = "one\ntwo\nthree\nfour\nfive";
    let dst = "one\ntwo\nthree\nfour\nfive\n";
    let diff = make_diff(src, dst, 1);

    assert_eq!(
        diff,
        vec![Mismatch {
            line_number_orig: 5,
            lines: vec![
                DiffLine::Context("five".to_owned()),
                DiffLine::Expected("".to_owned())
            ],
        }]
    );
}

#[test]
fn write_diff_simple() {
    let src = "one\ntwo\nthree\nfour\nfive\n";
    let dst = "one\ntwo\ntrois\nfour\nfive\n";
    let mut buf = Vec::new();

    write_diff(src, dst, "<src>", &mut buf);

    assert_eq!(
        "Diff in <src> at line 1:\n one\n two\n-three\n+trois\n four\n five\n \n",
        std::str::from_utf8(&buf).unwrap()
    );
}

#[test]
fn identical_texts_have_no_mismatch() {
    assert_eq!(Vec::<Mismatch>::new(), make_diff("a\nb\n", "a\nb\n", 3));
    let mut buf = Vec::new();
    write_diff("same\n", "same\n", "x", &mut buf);
    assert!(buf.is_empty());
}

#[test]
fn new_mismatch_is_empty() {
    assert_eq!(
        Mismatch {
            line_number_orig: 7,
            lines: Vec::new()
        },
        Mismatch::new(7)
    );
}
