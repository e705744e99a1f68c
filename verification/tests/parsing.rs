use filter_parser::run;

#[test]
fn test_valid_input() {
    let cases = vec![
            "q01;elb0001=1",
            "q01;elb0001=-1",
            "q01;elb0001=1.324",
            "01;elb0001=10",
            "1a;elb0001=10",
            "1รถ;hl0012=2",
            "1a;elb0001>10",
            "1a;elb0001<10",
            "1a;elb0001<=10",
            "1a;elb0001==10",
            "-1;elb0001==10",
            "-1a;elb0001==10",
            "q01;elb001 = 2:3",
            "q01;elb001 = -2:-3",
            "q01;hl0001 = 1, 2, 4",
            "q01;hl0001 = 1,2,4",
            "q01;hl0001 = -1,-2,4",
            "q02;hl0012 = hl0001",
            "q02;hl0012 = q01;hl001",
            "q01;hl0001=1 & q02;hl0012=3",
            "q01;hl0001=1&q02;hl0012=3",
            "q01;hl0001=1 & q02;hl0012=3 & q03;hl041=4",
            "q01;hl0001=1 | q02;hl0012=3 | q03;hl041=4",
            "q01;hl0001=1 & q02;hl0012=3 | q03;hl041=4",
            "q01;hl0001=1 & (q02;hl0012=3 | q03;hl041=4)",
            "q01;hl0001=1 | (q02;hl0012=3 | q03;hl041=4)",
            "(q01;hl0001=1)",
            "(q01;hl0001=1 & q02;hl0012=3)",
            "[q01;hl0001=1 & q02;hl0012=3]",
            "{q01;hl0001=1 & q02;hl0012=3}",
            "(q01;hl0001=1 & q02;hl0012=3) | q03;hl003=4",
            "(q01;hl0001=1 & q02;hl0012=3 & q02;hl0013=3) | q03;hl003=4",
        ];

    for case in cases {
        let result = run(case);
        assert!(result.is_ok(), "Failed to parse valid input {:?}", case);
    }
}

#[test]
fn test_invalid_input() {
    let cases = vec![
            "1=2",
            "-1=2",
            "-1=-1",
            "1;1=2",
            "#q01;elb001=2",
            "elb01;elb01;",
            "elb01;=2",
            "elb03 =",
            "elb03 = 1:",
            "elb03 = 1,",
            "elb03 = 1.",
            "elb03 = -",
            "elb03 = -1-,2",
            "q01:elb001 = 2",
            "q01)elb001 = 3",
            "q01.elb001 = 2",
            "q01-elb001 = 2",
            "q01;elb001 = 2_3",
            "(q01;elb001=2",
            "q01;hl0001=1  q02;hl0012=3",
            "(q01;hl0001=1 & q02;hl0012=3",
            "(q01;hl0001=1 & q02;hl0012=",
            "(q01;hl0001=1 & q02;hl0012=2]",
            "(q01;hl0001=1 & q02;hl0012= &",   
            "q01;hl0001=1 & q02;hl0012= &",   
            "q01;hl0001=1 & q02;hl0012= |",   
            "()",
            "(q01;hl0001=1  q02;hl0012=3) | q03;hl003=4",
            "q01;hl0001=1  (q02;hl0012=3 | q03;hl003=4)",
        ];

    for case in cases {
        let result = run(case);
        assert!(result.is_err(), "Expected parse to fail. Input: {}, Got: {:?}", case, result);
    }
}
