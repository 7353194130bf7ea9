use task_maker::bits_include::{bits_stdcpp_report, check_no_bits_stdcpp, find_bits_include, IncludeSpan};

#[test]
fn bits_include_is_found() {
    let files = vec![
        ("sol/a.cpp".to_string(), "#include <iostream>\n#  include \"bits/stdc++.h\" // all\nint main() {}\n".to_string()),
        ("sol/b.cpp".to_string(), "#include <vector>\nint main() {}\n".to_string()),
    ];
    let report = check_no_bits_stdcpp(&files).expect("a warning");
    assert_eq!(report.message, "Usage of \"bits/stdc++.h\" is discouraged");
    assert_eq!(report.note, "This won't compile under Clang");
    assert_eq!(report.spans, vec![IncludeSpan { path: "sol/a.cpp".to_string(), start: 20, len: 33 }]);
}

#[test]
fn clean_sources_give_nothing() {
    let files = vec![("sol/b.cpp".to_string(), "#include <vector>\n".to_string())];
    assert!(check_no_bits_stdcpp(&files).is_none());
    assert!(bits_stdcpp_report(&vec![("x.cpp".to_string(), None)]).is_none());
    let r = bits_stdcpp_report(&vec![("x.cpp".to_string(), Some((3, 5))), ("y.cpp".to_string(), None)]).unwrap();
    assert_eq!(r.spans, vec![IncludeSpan { path: "x.cpp".to_string(), start: 3, len: 5 }]);
}

#[test]
fn include_must_start_a_line() {
    assert_eq!(find_bits_include("#include<bits/stdc++.h>"), Some((0, 23)));
    assert_eq!(find_bits_include("int x; #include <bits/stdc++.h>\n"), None);
    assert_eq!(find_bits_include("#\n include\t<bits/stdc++.h>\nx"), Some((0, 26)));
    assert_eq!(find_bits_include("#include <bits/stdc++.hpp>\n"), None);
    assert_eq!(find_bits_include("#include <bits/stdc++.h\n"), None);
}
