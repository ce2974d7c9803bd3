use patchquilt::java::model::TypeKind;
use patchquilt::java::parse::{package_of, split_top_level_commas, try_parse_field_decl};
use patchquilt::java::scan::parse_file;

#[test]
fn parses_simple_class_with_field_and_method() {
    let src = r"
        package net.minecraft.world.entity.animal.frog;

        public class Frog extends Animal {
            private static final int MAX_AGE = 20;

            protected void registerGoals() {
                this.goalSelector.addGoal(0, new FloatGoal(this));
            }
        }
    ";
    let types = parse_file("net/minecraft/world/entity/animal/frog/Frog.java", src);
    assert_eq!(types.len(), 1);
    let frog = &types[0];
    assert_eq!(frog.qualified_name, "Frog");
    assert_eq!(frog.package, "net.minecraft.world.entity.animal.frog");
    assert_eq!(frog.kind as u8, TypeKind::Class as u8);
    assert_eq!(frog.extends.as_deref(), Some("Animal"));
    assert_eq!(frog.fields.len(), 1);
    assert_eq!(frog.fields[0].name, "MAX_AGE");
    assert_eq!(frog.fields[0].java_type, "int");
    assert_eq!(frog.methods.len(), 1);
    assert_eq!(frog.methods[0].name, "registerGoals");
    assert_eq!(frog.methods[0].return_type, "void");
}

#[test]
fn parses_nested_class_with_qualified_name() {
    let src = r"
        package net.minecraft.world.entity.monster.illager;

        public abstract class SpellcasterIllager extends AbstractIllager {
            protected enum IllagerSpell {
                NONE, FANGS;
            }
        }
    ";
    let types = parse_file(
        "net/minecraft/world/entity/monster/illager/SpellcasterIllager.java",
        src,
    );
    assert_eq!(types.len(), 2);
    assert!(
        types
            .iter()
            .any(|t| t.qualified_name == "SpellcasterIllager")
    );
    assert!(
        types
            .iter()
            .any(|t| t.qualified_name == "SpellcasterIllager.IllagerSpell")
    );
}

#[test]
fn parses_interface_with_implements_list() {
    let src = r"
        package net.minecraft.world.entity;

        public class Foo implements Nameable, EntityAccess {
            public int bar(int a, String b) {
                return a;
            }
        }
    ";
    let types = parse_file("net/minecraft/world/entity/Foo.java", src);
    assert_eq!(types.len(), 1);
    assert_eq!(
        types[0].implements,
        vec!["Nameable".to_string(), "EntityAccess".to_string()]
    );
    assert_eq!(types[0].methods[0].params.len(), 2);
    assert_eq!(types[0].methods[0].params[0].java_type, "int");
    assert_eq!(types[0].methods[0].params[1].java_type, "String");
}

#[test]
fn parses_record_components_as_fields() {
    let src = r"
        package net.minecraft.core;

        public record BlockPos(int x, int y, int z) {
        }
    ";
    let types = parse_file("net/minecraft/core/BlockPos.java", src);
    assert_eq!(types.len(), 1);
    assert_eq!(types[0].kind as u8, TypeKind::Record as u8);
    assert_eq!(types[0].fields.len(), 3);
    assert_eq!(types[0].fields[0].name, "x");
}

#[test]
fn parses_constructor_distinct_from_return_typed_method() {
    let src = r"
        package net.minecraft.world.entity;

        public class Zombie {
            public Zombie(EntityType<?> type, Level level) {
            }

            public boolean isAlive() {
                return true;
            }
        }
    ";
    let types = parse_file("net/minecraft/world/entity/Zombie.java", src);
    assert_eq!(types[0].methods.len(), 2);
    assert!(types[0].methods.iter().any(|m| m.name == "<init>"));
    assert!(types[0].methods.iter().any(|m| m.name == "isAlive"));
}

#[test]
fn does_not_confuse_method_body_locals_with_fields() {
    let src = r#"
        package net.minecraft.world.entity;

        public class Foo {
            public void bar() {
                int localVariable = 5;
                if (localVariable > 0) {
                    String another = "x";
                }
            }
        }
    "#;
    let types = parse_file("net/minecraft/world/entity/Foo.java", src);
    assert_eq!(types[0].fields.len(), 0);
    assert_eq!(types[0].methods.len(), 1);
}

#[test]
fn split_top_level_commas_ignores_generics() {
    let parts = split_top_level_commas("Comparable<Foo, Bar>, Iterable<Baz>");
    assert_eq!(parts, vec!["Comparable<Foo, Bar>", "Iterable<Baz>"]);
}

#[test]
fn multi_declarator_field_shares_base_type() {
    let fields = try_parse_field_decl("private int a, b = 5, c");
    assert_eq!(fields.len(), 3);
    assert!(fields.iter().all(|f| f.java_type == "int"));
}

#[test]
fn declarator_brackets_move_to_the_type() {
    let fields = try_parse_field_decl("@Nullable protected static String[] names, grid[][] = null, 9bad");
    assert_eq!(fields.len(), 2);
    assert_eq!(fields[0].name, "names");
    assert_eq!(fields[0].java_type, "String[]");
    assert_eq!(fields[1].name, "grid");
    assert_eq!(fields[1].java_type, "String[][][]");
    assert_eq!(fields[0].modifiers, vec!["protected", "static"]);
}

#[test]
fn comma_split_edges() {
    assert!(split_top_level_commas("").is_empty());
    assert_eq!(split_top_level_commas(" a ,, b , "), vec!["a", "", "b"]);
    assert_eq!(split_top_level_commas("Map<K, V>, int[] x, f(a, b)"), vec!["Map<K, V>", "int[] x", "f(a, b)"]);
}

#[test]
fn methods_keep_modifiers_parameters_and_constructors() {
    let src = "package p;\n@Deprecated public final class Box<T> extends Base implements A<B, C>, D {\n  @Override\n  public static <R> java.util.List<R> map(final int count, String... rest) throws java.io.IOException { }\n  abstract void hook();\n  Box(T value) { }\n  Other(int x) { }\n}\n";
    let types = parse_file("p/Box.java", src);
    assert_eq!(types.len(), 1);
    let t = &types[0];
    assert_eq!(t.package, "p");
    assert_eq!(t.file, "p/Box.java");
    assert_eq!(t.modifiers, vec!["public", "final"]);
    assert_eq!(t.extends.as_deref(), Some("Base"));
    assert_eq!(t.implements, vec!["A<B, C>", "D"]);
    assert_eq!(t.methods.len(), 3);
    let map = &t.methods[0];
    assert_eq!(map.name, "map");
    assert_eq!(map.return_type, "java.util.List<R>");
    assert_eq!(map.modifiers, vec!["public", "static"]);
    assert_eq!(map.params.len(), 2);
    assert_eq!(map.params[0].name, "count");
    assert_eq!(map.params[0].java_type, "int");
    assert_eq!(map.params[1].name, "rest");
    assert_eq!(map.params[1].java_type, "String...");
    assert_eq!(t.methods[1].name, "hook");
    assert_eq!(t.methods[2].name, "<init>");
    assert_eq!(t.methods[2].return_type, "Box");
    assert_eq!(t.methods[2].params[0].java_type, "T");
}

#[test]
fn types_come_out_in_closing_order_with_kinds() {
    let src = "interface Outer { enum Inner { A; } record R(long id) { } }\nclass Second { }";
    let types = parse_file("Outer.java", src);
    let names: Vec<&str> = types.iter().map(|t| t.qualified_name.as_str()).collect();
    assert_eq!(names, vec!["Outer.Inner", "Outer.R", "Outer", "Second"]);
    assert_eq!(types[0].kind, TypeKind::Enum);
    assert_eq!(types[1].kind, TypeKind::Record);
    assert_eq!(types[1].fields[0].modifiers, vec!["private", "final"]);
    assert_eq!(types[2].kind, TypeKind::Interface);
    assert_eq!(types[3].kind, TypeKind::Class);
    assert_eq!(types[3].package, "");
}

#[test]
fn package_comes_from_the_declaration() {
    assert_eq!(package_of("// header\npackage a.b.c ;\nclass X {}"), "a.b.c");
    assert_eq!(package_of("class X {}"), "");
}

#[test]
fn braces_in_comments_and_strings_do_not_open_types() {
    let src = "class A { String s = \"class B {\"; /* class C { */ int n; }";
    let types = parse_file("A.java", src);
    assert_eq!(types.len(), 1);
    assert_eq!(types[0].fields.len(), 2);
    assert_eq!(types[0].fields[0].name, "s");
    assert_eq!(types[0].fields[1].name, "n");
}

#[test]
fn nothing_inside_a_method_body_is_indexed() {
    let src = r#"
        package a.b;

        public class Outer {
            void run() {
                int local = 1;
                class Local { int hidden; void inner() {} }
                Runnable r = new Runnable() { public void run() { int deep = 2; } };
            }
            int kept;
        }
    "#;
    let types = parse_file("a/b/Outer.java", src);
    assert_eq!(types.len(), 1);
    assert_eq!(types[0].qualified_name, "Outer");
    assert_eq!(types[0].fields.len(), 1);
    assert_eq!(types[0].fields[0].name, "kept");
    assert_eq!(types[0].methods.len(), 1);
    assert_eq!(types[0].methods[0].name, "run");
}
