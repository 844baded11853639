use cscsca::grammar::{GrammarPattern, build_config, build_grammar, build_grammar_file, style_json, trim};

#[test]
fn trimming_removes_outer_whitespace() {
    assert_eq!(trim("  a b \t"), "a b");
    assert_eq!(trim("   "), "");
    assert_eq!(trim(""), "");
    assert_eq!(trim("x"), "x");
    assert_eq!(trim("\u{3000}y\u{a0}"), "y");
}

#[test]
fn json_is_indented_by_its_brackets() {
    assert_eq!(style_json("{\n\"a\": [\n1,\n2\n]\n}"), "{\n\t\"a\": [\n\t\t1,\n\t\t2\n\t]\n}\n");
    assert_eq!(style_json("  {  \n   }   "), "{\n}\n");
    assert_eq!(style_json(""), "");
    assert_eq!(style_json("}\n}\nx"), "}\n}\nx\n");
    assert_eq!(style_json("[\r\n[\r\n]"), "[\n\t[\n\t]\n");
}

#[test]
fn a_grammar_file_lists_its_groups_and_patterns() {
    let groups = vec![(
        "g",
        vec![GrammarPattern { name: "p", pat_name: vec!["a", "b"], match_regex: "x+".to_string() }],
    )];
    assert_eq!(
        build_grammar_file(&groups),
        "{\n\t\"$schema\": \"https://raw.githubusercontent.com/martinring/tmlanguage/master/tmlanguage.json\",\n\t\"name\": \"CSCSCA\",\n\t\"patterns\": [{\"include\": \"#g\"}],\n\t\"repository\": {\n\t\t\"g\": {\n\t\t\t\"patterns\": [\n\t\t\t\t{\"include\": \"#p\" }\n\t\t\t]\n\t\t},\n\t\t\"p\": {\n\t\t\t\"name\": \"a.cscsca b.cscsca\",\n\t\t\t\"match\": \"x+\"\n\t\t}\n\t},\n\t\"scopeName\": \"source.sca\"\n}\n"
    );
}

#[test]
fn the_editor_configuration_names_comments_and_brackets() {
    assert_eq!(build_config(), "{\n	\"comments\": {\n		\"lineComment\": \"##\"\n	},\n	\"brackets\": [\n		[\"(\", \")\"],\n		[\"{\", \"}\"]\n	],\n	\"autoClosingPairs\": [\n		[\"(\", \")\"],\n		[\"{\", \"}\"]\n	],\n	\"surroundingPairs\": [\n		[\"(\", \")\"],\n		[\"{\", \"}\"]\n	]\n}\n");
}

#[test]
fn the_grammar_of_the_language() {
    assert_eq!(build_grammar(), "{\n	\"$schema\": \"https://raw.githubusercontent.com/martinring/tmlanguage/master/tmlanguage.json\",\n	\"name\": \"CSCSCA\",\n	\"patterns\": [{\"include\": \"#comment\"}, {\"include\": \"#expression\"}],\n	\"repository\": {\n		\"comment\": {\n			\"patterns\": [\n				{\"include\": \"#comment_\" }\n			]\n		},\n		\"expression\": {\n			\"patterns\": [\n				{\"include\": \"#statement\" },\n				{\"include\": \"#escape\" },\n				{\"include\": \"#potentially_special_characters\" },\n				{\"include\": \"#special_characters\" },\n				{\"include\": \"#definition_call\" },\n				{\"include\": \"#variable_call\" },\n				{\"include\": \"#label\" },\n				{\"include\": \"#definition_name\" },\n				{\"include\": \"#variable_name\" },\n				{\"include\": \"#breaks\" },\n				{\"include\": \"#punctuation\" },\n				{\"include\": \"#scope_bound\" },\n				{\"include\": \"#reserved\" },\n				{\"include\": \"#phone\" }\n			]\n		},\n		\"comment_\": {\n			\"name\": \"comment.cscsca\",\n			\"match\": \"(^\\\\#\\\\#|(?<=(^(PRINT|(GET|GET_AS_CODE)\\\\s*\\\\S+)))).*?$\"\n		},\n		\"statement\": {\n			\"name\": \"keyword.cscsca strong.cscsca\",\n			\"match\": \"^(DEFINE|PRINT|GET|GET_AS_CODE)\"\n		},\n		\"escape\": {\n			\"name\": \"constant.character.escape.cscsca\",\n			\"match\": \"\\\\\\\\.\"\n		},\n		\"potentially_special_characters\": {\n			\"name\": \"keyword.cscsca\",\n			\"match\": \"(?<=((\\\\s|^|$|>|<|/|&|@|\\\\$|%|\\\\#|,|\\\\*|=|\\\\(|\\\\)|\\\\{|\\\\}|\\\\.|\\\\[|\\\\])))(_|\\\\.\\\\.)(?=((\\\\s|^|$|>|<|/|&|@|\\\\$|%|\\\\#|,|\\\\*|=|\\\\(|\\\\)|\\\\{|\\\\}|\\\\.|\\\\[|\\\\])))\"\n		},\n		\"special_characters\": {\n			\"name\": \"keyword.cscsca\",\n			\"match\": \"\\\\#|\\\\*|=\"\n		},\n		\"definition_call\": {\n			\"name\": \"entity.name.type.cscsca\",\n			\"match\": \"@\\\\S+?(?=((\\\\s|^|$|>|<|/|&|@|\\\\$|%|\\\\#|,|\\\\*|=|\\\\(|\\\\)|\\\\{|\\\\}|\\\\.|\\\\[|\\\\])))\"\n		},\n		\"variable_call\": {\n			\"name\": \"entity.name.type.cscsca emphasis.cscsca\",\n			\"match\": \"%\\\\S+?(?=((\\\\s|^|$|>|<|/|&|@|\\\\$|%|\\\\#|,|\\\\*|=|\\\\(|\\\\)|\\\\{|\\\\}|\\\\.|\\\\[|\\\\])))\"\n		},\n		\"label\": {\n			\"name\": \"entity.name.function.cscsca emphasis.cscsca\",\n			\"match\": \"\\\\$\\\\S+?(?=((\\\\s|^|$|>|<|/|&|@|\\\\$|%|\\\\#|,|\\\\*|=|\\\\(|\\\\)|\\\\{|\\\\}|\\\\.|\\\\[|\\\\])))\"\n		},\n		\"definition_name\": {\n			\"name\": \"entity.name.type.cscsca\",\n			\"match\": \"(?=(^DEFINE\\\\s*?))\\\\S+?(?=((\\\\s|^|$|>|<|/|&|@|\\\\$|%|\\\\#|,|\\\\*|=|\\\\(|\\\\)|\\\\{|\\\\}|\\\\.|\\\\[|\\\\])))\"\n		},\n		\"variable_name\": {\n			\"name\": \"entity.name.type.cscsca emphasis.cscsca\",\n			\"match\": \"(?=(^(GET|GET_AS_CODE)\\\\s*?))\\\\S+?(?=((\\\\s|^|$|>|<|/|&|@|\\\\$|%|\\\\#|,|\\\\*|=|\\\\(|\\\\)|\\\\{|\\\\}|\\\\.|\\\\[|\\\\])))\"\n		},\n		\"breaks\": {\n			\"name\": \"keyword.control.cscsca\",\n			\"match\": \">>|>|<<|<|/|//|&\"\n		},\n		\"punctuation\": {\n			\"name\": \"punctuation.seperator.cscsca\",\n			\"match\": \",\"\n		},\n		\"scope_bound\": {\n			\"name\": \"punctuation.bound.cscsca\",\n			\"match\": \"\\\\(|\\\\)|\\\\{|\\\\}\"\n		},\n		\"reserved\": {\n			\"name\": \"invalid.reserved.cscsca\",\n			\"match\": \"\\\\.|\\\\[|\\\\]\"\n		},\n		\"phone\": {\n			\"name\": \"variable.phone.cscsca\",\n			\"match\": \"\\\\S+?(?=((\\\\s|^|$|>|<|/|&|@|\\\\$|%|\\\\#|,|\\\\*|=|\\\\(|\\\\)|\\\\{|\\\\}|\\\\.|\\\\[|\\\\])))\"\n		}\n	},\n	\"scopeName\": \"source.sca\"\n}\n");
}
